//! Where the application writes its log files.

use vstd::prelude::*;

use crate::discovery::opt_str_view;
use crate::text::{
    append_chars, chars_of, has_prefix, join_path, join_path_chars, segment_end, segment_len,
    slice_chars, starts_with, string_from,
};

verus! {

/// The Unix-like platforms whose log location differs.
#[derive(Clone, Copy, Debug, PartialEq, Eq, Structural)]
pub enum UnixFlavor {
    MacOs,
    Other,
}

/// `base` joined with each component of `parts` in turn.
pub open spec fn join_all(base: Seq<char>, parts: Seq<Seq<char>>) -> Seq<char>
    decreases parts.len(),
{
    if parts.len() == 0 {
        base
    } else {
        join_all(join_path(base, parts[0]), parts.drop_first())
    }
}

/// The log directory: `~/Library/Logs/ConexionAirPlay` on macOS; on other
/// systems `$XDG_STATE_HOME/ConexionAirPlay/logs`, else
/// `~/.local/state/ConexionAirPlay/logs`; none without the variables.
pub open spec fn log_dir_spec(
    flavor: UnixFlavor,
    home: Option<Seq<char>>,
    xdg_state_home: Option<Seq<char>>,
) -> Option<Seq<char>> {
    match flavor {
        UnixFlavor::MacOs => match home {
            Some(h) => Some(join_all(h, seq!["Library"@, "Logs"@, "ConexionAirPlay"@])),
            None => None,
        },
        UnixFlavor::Other => match xdg_state_home {
            Some(x) => Some(join_all(x, seq!["ConexionAirPlay"@, "logs"@])),
            None => match home {
                Some(h) => Some(
                    join_all(h, seq![".local"@, "state"@, "ConexionAirPlay"@, "logs"@]),
                ),
                None => None,
            },
        },
    }
}

proof fn lemma_join_plain(base: Seq<char>, part: Seq<char>)
    requires
        base.len() > 0,
        base.last() != '/',
        part.len() > 0,
        part[0] != '/',
        part.last() != '/',
    ensures
        join_path(base, part) == base + seq!['/'] + part,
        join_path(base, part).len() > 0,
        join_path(base, part).last() != '/',
{
}

proof fn lemma_mac_dir(home: Seq<char>)
    requires
        home.len() > 0,
        home.last() != '/',
    ensures
        join_all(home, seq!["Library"@, "Logs"@, "ConexionAirPlay"@]) == home
            + "/Library/Logs/ConexionAirPlay"@,
{
    reveal_strlit("Library");
    reveal_strlit("Logs");
    reveal_strlit("ConexionAirPlay");
    reveal_strlit("/Library/Logs/ConexionAirPlay");
    let parts = seq!["Library"@, "Logs"@, "ConexionAirPlay"@];
    lemma_join_plain(home, "Library"@);
    let m1 = join_path(home, "Library"@);
    lemma_join_plain(m1, "Logs"@);
    let m2 = join_path(m1, "Logs"@);
    lemma_join_plain(m2, "ConexionAirPlay"@);
    let m3 = join_path(m2, "ConexionAirPlay"@);
    assert(parts.drop_first() =~= seq!["Logs"@, "ConexionAirPlay"@]);
    assert(parts.drop_first().drop_first() =~= seq!["ConexionAirPlay"@]);
    assert(parts.drop_first().drop_first().drop_first() =~= Seq::<Seq<char>>::empty());
    assert(join_all(home, parts) == join_all(m1, parts.drop_first()));
    assert(join_all(m1, parts.drop_first()) == join_all(m2, parts.drop_first().drop_first()));
    assert(join_all(m2, parts.drop_first().drop_first()) == join_all(
        m3,
        parts.drop_first().drop_first().drop_first(),
    ));
    assert(m3 =~= home + "/Library/Logs/ConexionAirPlay"@);
}

proof fn lemma_xdg_dir(x: Seq<char>)
    requires
        x.len() > 0,
        x.last() != '/',
    ensures
        join_all(x, seq!["ConexionAirPlay"@, "logs"@]) == x + "/ConexionAirPlay/logs"@,
{
    reveal_strlit("logs");
    reveal_strlit("ConexionAirPlay");
    reveal_strlit("/ConexionAirPlay/logs");
    let parts = seq!["ConexionAirPlay"@, "logs"@];
    lemma_join_plain(x, "ConexionAirPlay"@);
    let m1 = join_path(x, "ConexionAirPlay"@);
    lemma_join_plain(m1, "logs"@);
    let m2 = join_path(m1, "logs"@);
    assert(parts.drop_first() =~= seq!["logs"@]);
    assert(parts.drop_first().drop_first() =~= Seq::<Seq<char>>::empty());
    assert(join_all(x, parts) == join_all(m1, parts.drop_first()));
    assert(join_all(m1, parts.drop_first()) == join_all(m2, parts.drop_first().drop_first()));
    assert(m2 =~= x + "/ConexionAirPlay/logs"@);
}

proof fn lemma_state_dir(home: Seq<char>)
    requires
        home.len() > 0,
        home.last() != '/',
    ensures
        join_all(home, seq![".local"@, "state"@, "ConexionAirPlay"@, "logs"@]) == home
            + "/.local/state/ConexionAirPlay/logs"@,
{
    reveal_strlit(".local");
    reveal_strlit("state");
    reveal_strlit("/.local/state/ConexionAirPlay/logs");
    let parts = seq![".local"@, "state"@, "ConexionAirPlay"@, "logs"@];
    lemma_join_plain(home, ".local"@);
    let m1 = join_path(home, ".local"@);
    lemma_join_plain(m1, "state"@);
    let m2 = join_path(m1, "state"@);
    assert(parts.drop_first() =~= seq!["state"@, "ConexionAirPlay"@, "logs"@]);
    assert(parts.drop_first().drop_first() =~= seq!["ConexionAirPlay"@, "logs"@]);
    assert(join_all(home, parts) == join_all(m1, parts.drop_first()));
    assert(join_all(m1, parts.drop_first()) == join_all(m2, parts.drop_first().drop_first()));
    lemma_xdg_dir(m2);
    assert(m2 + "/ConexionAirPlay/logs"@ =~= home + "/.local/state/ConexionAirPlay/logs"@) by {
        reveal_strlit("/ConexionAirPlay/logs");
    }
}

/// On Unix-like systems the log directory lies below the given directory
/// (`XDG_STATE_HOME` first, else `HOME`), one `/` between each component;
/// macOS uses `HOME` alone; without the variables there is none.
pub proof fn lemma_log_dir_under(flavor: UnixFlavor, home: Seq<char>, xdg: Seq<char>)
    requires
        home.len() > 0,
        home.last() != '/',
        xdg.len() > 0,
        xdg.last() != '/',
    ensures
        log_dir_spec(UnixFlavor::MacOs, Some(home), Some(xdg)) == Some(home
            + "/Library/Logs/ConexionAirPlay"@),
        log_dir_spec(UnixFlavor::Other, Some(home), Some(xdg)) == Some(xdg
            + "/ConexionAirPlay/logs"@),
        log_dir_spec(UnixFlavor::Other, None, Some(xdg)) == Some(xdg + "/ConexionAirPlay/logs"@),
        log_dir_spec(UnixFlavor::Other, Some(home), None) == Some(home
            + "/.local/state/ConexionAirPlay/logs"@),
        log_dir_spec(flavor, None, None) is None,
{
    lemma_mac_dir(home);
    lemma_xdg_dir(xdg);
    lemma_state_dir(home);
}

fn join_str(base: Vec<char>, part: &str) -> (res: Vec<char>)
    ensures
        res@ == join_path(base@, part@),
{
    join_path_chars(&base, &chars_of(part))
}

/// The directory for log files given the platform flavour and the values of
/// `HOME` and `XDG_STATE_HOME`.
pub fn log_dir(flavor: UnixFlavor, home: Option<&str>, xdg_state_home: Option<&str>) -> (res:
    Option<String>)
    ensures
        match res {
            Some(d) => log_dir_spec(flavor, opt_str_view(home), opt_str_view(xdg_state_home)) == Some(
                d@,
            ),
            None => log_dir_spec(flavor, opt_str_view(home), opt_str_view(xdg_state_home)) is None,
        },
{
    match flavor {
        UnixFlavor::MacOs => match home {
            Some(h) => {
                let a = join_str(chars_of(h), "Library");
                let b = join_str(a, "Logs");
                let c = join_str(b, "ConexionAirPlay");
                proof {
                    reveal_with_fuel(join_all, 5);
                    let parts = seq!["Library"@, "Logs"@, "ConexionAirPlay"@];
                    assert(parts.drop_first().drop_first().drop_first() =~= Seq::<Seq<char>>::empty());
                    assert(parts.drop_first()[0] == "Logs"@);
                    assert(parts.drop_first().drop_first()[0] == "ConexionAirPlay"@);
                }
                Some(string_from(&c))
            },
            None => None,
        },
        UnixFlavor::Other => match xdg_state_home {
            Some(x) => {
                let a = join_str(chars_of(x), "ConexionAirPlay");
                let b = join_str(a, "logs");
                proof {
                    reveal_with_fuel(join_all, 5);
                    let parts = seq!["ConexionAirPlay"@, "logs"@];
                    assert(parts.drop_first().drop_first() =~= Seq::<Seq<char>>::empty());
                    assert(parts.drop_first()[0] == "logs"@);
                }
                Some(string_from(&b))
            },
            None => match home {
                Some(h) => {
                    let a = join_str(chars_of(h), ".local");
                    let b = join_str(a, "state");
                    let c = join_str(b, "ConexionAirPlay");
                    let d = join_str(c, "logs");
                    proof {
                        reveal_with_fuel(join_all, 5);
                        let parts = seq![".local"@, "state"@, "ConexionAirPlay"@, "logs"@];
                        let p1 = parts.drop_first();
                        let p2 = p1.drop_first();
                        let p3 = p2.drop_first();
                        assert(p3.drop_first() =~= Seq::<Seq<char>>::empty());
                        assert(p1[0] == "state"@);
                        assert(p2[0] == "ConexionAirPlay"@);
                        assert(p3[0] == "logs"@);
                    }
                    Some(string_from(&d))
                },
                None => None,
            },
        },
    }
}

// ---------------------------------------------------------------------------
// Windows
// ---------------------------------------------------------------------------

/// A Windows path separator.
pub open spec fn is_win_sep(c: char) -> bool {
    c == '\\' || c == '/'
}

/// `s` is nothing but a drive prefix such as `C:`.
pub open spec fn is_bare_drive(s: Seq<char>) -> bool {
    s.len() == 2 && s[1] == ':' && (('A' <= s[0] && s[0] <= 'Z') || ('a' <= s[0] && s[0] <= 'z'))
}

/// `s` starts with the verbatim prefix `\\?\`.
pub open spec fn is_verbatim(s: Seq<char>) -> bool {
    has_prefix(s, "\\\\?\\"@)
}

/// The length of the prefix of a verbatim path: `\\?\UNC\server\share`
/// (the share only when it is not empty), else `\\?\` and the text up to the
/// next backslash (`\\?\C:` among them).
pub open spec fn verbatim_prefix_len(s: Seq<char>) -> nat {
    if has_prefix(s, "\\\\?\\UNC\\"@) {
        let server_end = 8 + segment_len(s.skip(8), '\\');
        if server_end < s.len() {
            let share_len = segment_len(s.skip(server_end as int + 1), '\\');
            if share_len > 0 {
                server_end + 1 + share_len
            } else {
                server_end
            }
        } else {
            server_end
        }
    } else {
        4 + segment_len(s.skip(4), '\\')
    }
}

/// The components of `s` (separated by backslashes; empty ones dropped),
/// each written after one backslash. `at_start` tells whether the next
/// character would begin a component.
pub open spec fn rebuilt_components(s: Seq<char>, at_start: bool) -> Seq<char>
    decreases s.len(),
{
    if s.len() == 0 {
        Seq::empty()
    } else if s[0] == '\\' {
        rebuilt_components(s.drop_first(), true)
    } else if at_start {
        seq!['\\', s[0]] + rebuilt_components(s.drop_first(), false)
    } else {
        seq![s[0]] + rebuilt_components(s.drop_first(), false)
    }
}

/// `base` extended with the plain file name `c` as `PathBuf::push` does on
/// Windows: a verbatim base (`\\?\...`) is rebuilt from its components,
/// joined by single backslashes; any other base gets a backslash unless it
/// is empty, ends with a separator or is a bare drive such as `C:`.
pub open spec fn win_push(base: Seq<char>, c: Seq<char>) -> Seq<char> {
    if is_verbatim(base) {
        let pl = verbatim_prefix_len(base) as int;
        base.take(pl) + rebuilt_components(base.skip(pl), true) + seq!['\\'] + c
    } else if base.len() > 0 && !is_win_sep(base.last()) && !is_bare_drive(base) {
        base + seq!['\\'] + c
    } else {
        base + c
    }
}

/// The log directory on Windows: `%APPDATA%\ConexionAirPlay\logs`, none
/// without the variable.
pub open spec fn windows_log_dir_spec(appdata: Option<Seq<char>>) -> Option<Seq<char>> {
    match appdata {
        Some(a) => Some(win_push(win_push(a, "ConexionAirPlay"@), "logs"@)),
        None => None,
    }
}

/// On Windows the log directory is `ConexionAirPlay\logs` below `APPDATA`:
/// after one backslash, or directly after a trailing separator; there is
/// none without the variable. (Plain paths, not of the verbatim `\\?\`
/// form.)
pub proof fn lemma_windows_log_dir_under(a: Seq<char>)
    requires
        a.len() >= 4,
        !is_verbatim(a),
    ensures
        !is_win_sep(a.last()) ==> windows_log_dir_spec(Some(a)) == Some(a + "\\ConexionAirPlay\\logs"@),
        is_win_sep(a.last()) ==> windows_log_dir_spec(Some(a)) == Some(a + "ConexionAirPlay\\logs"@),
        windows_log_dir_spec(None) is None,
{
    reveal_strlit("ConexionAirPlay");
    reveal_strlit("logs");
    reveal_strlit("\\\\?\\");
    reveal_strlit("\\ConexionAirPlay\\logs");
    reveal_strlit("ConexionAirPlay\\logs");
    let c = "ConexionAirPlay"@;
    let b = win_push(a, c);
    if !is_win_sep(a.last()) {
        assert(b == a + seq!['\\'] + c);
    } else {
        assert(b == a + c);
    }
    assert(b.subrange(0, 4) =~= a.subrange(0, 4));
    assert(!is_verbatim(b));
    assert(b.last() == 'y');
    assert(win_push(b, "logs"@) == b + seq!['\\'] + "logs"@);
    if !is_win_sep(a.last()) {
        assert(b + seq!['\\'] + "logs"@ =~= a + "\\ConexionAirPlay\\logs"@);
    } else {
        assert(b + seq!['\\'] + "logs"@ =~= a + "ConexionAirPlay\\logs"@);
    }
}

fn is_ascii_letter(c: char) -> (b: bool)
    ensures
        b == (('A' <= c && c <= 'Z') || ('a' <= c && c <= 'z')),
{
    ('A' <= c && c <= 'Z') || ('a' <= c && c <= 'z')
}

fn verbatim_prefix_end(s: &Vec<char>) -> (pl: usize)
    requires
        is_verbatim(s@),
    ensures
        pl == verbatim_prefix_len(s@),
        pl <= s@.len(),
{
    proof {
        reveal_strlit("\\\\?\\");
        reveal_strlit("\\\\?\\UNC\\");
    }
    if starts_with(s, &chars_of("\\\\?\\UNC\\")) {
        let server_end = segment_end(s, 8, '\\');
        if server_end < s.len() {
            let share_end = segment_end(s, server_end + 1, '\\');
            if share_end > server_end + 1 {
                share_end
            } else {
                server_end
            }
        } else {
            server_end
        }
    } else {
        segment_end(s, 4, '\\')
    }
}

/// `base` extended with `c` (see [`win_push`]).
pub fn win_push_chars(base: &Vec<char>, c: &Vec<char>) -> (res: Vec<char>)
    ensures
        res@ == win_push(base@, c@),
{
    proof {
        reveal_strlit("\\\\?\\");
    }
    if starts_with(base, &chars_of("\\\\?\\")) {
        let pl = verbatim_prefix_end(base);
        let mut out = slice_chars(base, 0, pl);
        let ghost target = base@.take(pl as int) + rebuilt_components(base@.skip(pl as int), true);
        let mut at_start = true;
        let mut i = pl;
        assert(out@ =~= base@.take(pl as int));
        while i < base.len()
            invariant
                pl <= i <= base@.len(),
                target == base@.take(pl as int) + rebuilt_components(base@.skip(pl as int), true),
                target == out@ + rebuilt_components(base@.skip(i as int), at_start),
            decreases base@.len() - i,
        {
            let ch = base[i];
            let ghost rest = base@.skip(i as int);
            assert(rest.drop_first() =~= base@.skip(i + 1));
            assert(rest[0] == ch);
            if ch == '\\' {
                at_start = true;
            } else {
                if at_start {
                    out.push('\\');
                    assert(seq!['\\', ch] =~= seq!['\\'].push(ch));
                }
                out.push(ch);
                at_start = false;
            }
            proof {
                assert(target =~= out@ + rebuilt_components(base@.skip(i + 1), at_start));
            }
            i += 1;
        }
        assert(base@.skip(i as int) =~= Seq::<char>::empty());
        assert(out@ =~= target);
        out.push('\\');
        append_chars(&mut out, c);
        out
    } else {
        let mut out = slice_chars(base, 0, base.len());
        assert(out@ =~= base@);
        let n = base.len();
        if n > 0 && base[n - 1] != '\\' && base[n - 1] != '/' && !(n == 2 && base[1] == ':'
            && is_ascii_letter(base[0])) {
            out.push('\\');
        }
        append_chars(&mut out, c);
        out
    }
}

/// The directory for log files on Windows given the value of `APPDATA`.
pub fn windows_log_dir(appdata: Option<&str>) -> (res: Option<String>)
    ensures
        match res {
            Some(d) => windows_log_dir_spec(opt_str_view(appdata)) == Some(d@),
            None => windows_log_dir_spec(opt_str_view(appdata)) is None,
        },
{
    match appdata {
        Some(a) => {
            let first = win_push_chars(&chars_of(a), &chars_of("ConexionAirPlay"));
            let second = win_push_chars(&first, &chars_of("logs"));
            Some(string_from(&second))
        },
        None => None,
    }
}

} // verus!
