//! Helpers of the PulseAudio / PipeWire capture backend: finding `parec` on
//! the search path, reading the default sink from `pactl info`, and the
//! command line that records the sink's monitor.

use vstd::prelude::*;

use crate::discovery::{opt_str_view, opt_string_view};
use crate::text::{
    append_chars, chars_of, contains_lowered, decimal, has_prefix, has_substring_lowered,
    join_path, join_path_chars, lemma_segment_props, push_decimal, segment_end, segment_len, slice_chars, split_on,
    starts_with, string_from, trim, trimmed,
};

verus! {

/// Candidate `i` is the first one that `is_file` accepted.
pub open spec fn first_accepted<F: Fn(&str) -> bool>(is_file: F, cands: Seq<Seq<char>>, i: int) -> bool {
    &&& 0 <= i < cands.len()
    &&& answered(is_file, cands[i], true)
    &&& forall|j: int| 0 <= j < i ==> answered(is_file, cands[j], false)
}

/// A search for `bin` along the path `pv` may return `found`: the first
/// candidate that `is_file` accepted.
pub open spec fn search_found<F: Fn(&str) -> bool>(
    is_file: F,
    pv: Seq<char>,
    bin: Seq<char>,
    found: Seq<char>,
) -> bool {
    exists|i: int|
        #[trigger] first_accepted(is_file, path_candidates(pv, bin), i) && found == path_candidates(
            pv,
            bin,
        )[i]
}

/// A search for `bin` along the path `pv` may return nothing: `is_file`
/// refused every candidate.
pub open spec fn search_empty<F: Fn(&str) -> bool>(is_file: F, pv: Seq<char>, bin: Seq<char>) -> bool {
    forall|j: int|
        0 <= j < path_candidates(pv, bin).len() ==> answered(
            is_file,
            #[trigger] path_candidates(pv, bin)[j],
            false,
        )
}

/// What a search for `bin` along `path_var` may return: nothing without a
/// search path; otherwise the first candidate that `is_file` accepted, or
/// nothing when it accepted none.
pub open spec fn search_outcome<F: Fn(&str) -> bool>(
    is_file: F,
    path_var: Option<Seq<char>>,
    bin: Seq<char>,
    res: Option<Seq<char>>,
) -> bool {
    match path_var {
        None => res is None,
        Some(pv) => match res {
            Some(found) => search_found(is_file, pv, bin, found),
            None => search_empty(is_file, pv, bin),
        },
    }
}

/// The paths at which `bin` is looked for, one per entry of a `PATH` value.
pub open spec fn path_candidates(path_var: Seq<char>, bin: Seq<char>) -> Seq<Seq<char>> {
    split_on(path_var, ':').map_values(|d: Seq<char>| join_path(d, bin))
}

/// `is_file` answered `answer` when asked about a path spelled `s`.
pub open spec fn answered<F: Fn(&str) -> bool>(is_file: F, s: Seq<char>, answer: bool) -> bool {
    exists|x: &str| x@ == s && call_ensures(is_file, (x,), answer)
}

/// The first path, over the entries of the `PATH` value `path_var`, at
/// which `bin` names a file according to `is_file`.
pub fn which<F: Fn(&str) -> bool>(path_var: Option<&str>, bin: &str, is_file: F) -> (res: Option<
    String,
>)
    requires
        forall|x: &str| is_file.requires((x,)),
    ensures
        search_outcome(is_file, opt_str_view(path_var), bin@, opt_string_view(res)),
{
    let pv = match path_var {
        Some(p) => p,
        None => {
            return None;
        },
    };
    let v = chars_of(pv);
    let b = chars_of(bin);
    let n = v.len();
    let ghost all = path_candidates(pv@, bin@);
    let ghost mut done: Seq<Seq<char>> = Seq::empty();
    let mut p: usize = 0;
    assert(v@.skip(0) =~= v@);
    loop
        invariant
            n == v@.len(),
            path_var == Some(pv),
            v@ == pv@,
            b@ == bin@,
            p <= n,
            all == path_candidates(pv@, bin@),
            split_on(v@, ':') == done + split_on(v@.skip(p as int), ':'),
            forall|j: int| 0 <= j < done.len() ==> answered(is_file, join_path(done[j], bin@), false),
            forall|x: &str| is_file.requires((x,)),
        decreases n - p,
    {
        let e = segment_end(&v, p, ':');
        let dir = slice_chars(&v, p, e);
        let cand = join_path_chars(&dir, &b);
        let cand_s = string_from(&cand);
        let ghost w = v@.skip(p as int);
        proof {
            assert(dir@ =~= w.take(segment_len(w, ':') as int));
        }
        let cand_ref = cand_s.as_str();
        let hit = is_file(cand_ref);
        assert(call_ensures(is_file, (cand_ref,), hit));
        assert(cand_ref@ == cand@);
        assert(split_on(w, ':').len() >= 1);
        if hit {
            proof {
                let i = done.len() as int;
                assert(split_on(v@, ':')[i] == dir@);
                assert(answered(is_file, all[i], true));
                assert forall|j: int| 0 <= j < i implies answered(is_file, all[j], false) by {
                    assert(split_on(v@, ':')[j] == done[j]);
                }
                assert(first_accepted(is_file, all, i));
                assert(search_found(is_file, pv@, bin@, cand_s@));
            }
            return Some(cand_s);
        }
        let ghost seg = dir@;
        assert(answered(is_file, join_path(seg, bin@), false)) by {
            assert(cand_ref@ == join_path(seg, bin@));
        }
        if e == n {
            proof {
                assert(split_on(w, ':') == seq![w]);
                assert(w =~= seg);
                let full = done.push(seg);
                assert(split_on(v@, ':') =~= full);
                assert forall|j: int| 0 <= j < all.len() implies answered(is_file, all[j], false) by {
                    assert(all[j] == join_path(full[j], bin@));
                }
                assert(search_empty(is_file, pv@, bin@));
                assert(search_outcome(is_file, opt_str_view(path_var), bin@, None));
            }
            return None;
        }
        proof {
            assert(w.skip(segment_len(w, ':') as int + 1) =~= v@.skip(e + 1));
            assert(split_on(w, ':') == seq![seg] + split_on(v@.skip(e + 1), ':'));
            assert(done + (seq![seg] + split_on(v@.skip(e + 1), ':')) =~= done.push(seg)
                + split_on(v@.skip(e + 1), ':'));
            done = done.push(seg);
        }
        p = e + 1;
    }
}

/// Whether `parec` is on the search path `path_var`, according to `is_file`.
pub fn available<F: Fn(&str) -> bool>(path_var: Option<&str>, is_file: F) -> (res: bool)
    requires
        forall|x: &str| is_file.requires((x,)),
    ensures
        exists|found: Option<Seq<char>>|
            search_outcome(is_file, opt_str_view(path_var), "parec"@, found) && res == (
            found is Some),
{
    let found = which(path_var, "parec", is_file);
    assert(search_outcome(is_file, opt_str_view(path_var), "parec"@, opt_string_view(found)));
    found.is_some()
}

/// The first line of `s` (lines end at `\n`) that starts with `p`.
pub open spec fn line_with_prefix(s: Seq<char>, p: Seq<char>) -> Option<Seq<char>>
    decreases s.len(),
{
    let l = segment_len(s, '\n');
    if has_prefix(s.take(l as int), p) {
        Some(s.take(l as int))
    } else if l < s.len() {
        line_with_prefix(s.skip(l as int + 1), p)
    } else {
        None
    }
}

/// `s[i..j]` is a whole line of `s`: it starts at the beginning or after a
/// `\n`, holds no `\n`, and ends at a `\n` or at the end.
pub open spec fn is_line(s: Seq<char>, i: int, j: int) -> bool {
    &&& (i == 0 || (0 < i <= s.len() && s[i - 1] == '\n'))
    &&& i <= j <= s.len()
    &&& forall|k: int| i <= k < j ==> #[trigger] s[k] != '\n'
    &&& (j == s.len() || s[j] == '\n')
}

/// The line found is the first whole line of `s` that starts with `p`; when
/// none is found, no line of `s` starts with `p`.
pub proof fn lemma_line_with_prefix(s: Seq<char>, p: Seq<char>)
    ensures
        line_with_prefix(s, p) matches Some(l) ==> exists|i: int, j: int|
            #[trigger] is_line(s, i, j) && l == s.subrange(i, j) && has_prefix(l, p) && forall|
                i2: int,
                j2: int,
            | #[trigger] is_line(s, i2, j2) && i2 < i ==> !has_prefix(s.subrange(i2, j2), p),
        line_with_prefix(s, p) is None ==> forall|i: int, j: int|
            #[trigger] is_line(s, i, j) ==> !has_prefix(s.subrange(i, j), p),
    decreases s.len(),
{
    let l0 = segment_len(s, '\n') as int;
    lemma_segment_props(s, '\n');
    assert(s.take(l0) =~= s.subrange(0, l0));
    assert(is_line(s, 0, l0));
    // every line of `s` is the first one or lies in the rest after its `\n`
    assert forall|i: int, j: int| #[trigger] is_line(s, i, j) && i == 0 implies j == l0 by {
        if j < l0 {
            assert(s[j] != '\n');
        }
        if l0 < j {
            assert(s[l0] != '\n');
        }
    }
    if has_prefix(s.take(l0), p) {
        assert forall|i2: int, j2: int| #[trigger] is_line(s, i2, j2) && i2 < 0 implies !has_prefix(
            s.subrange(i2, j2),
            p,
        ) by {}
    } else if l0 < s.len() {
        let r = s.skip(l0 + 1);
        lemma_line_with_prefix(r, p);
        let sh = l0 + 1;
        // lines of the rest are lines of `s`, shifted
        assert forall|i: int, j: int| #[trigger] is_line(r, i, j) implies is_line(s, i + sh, j + sh)
            by {
            assert forall|k: int| i + sh <= k < j + sh implies #[trigger] s[k] != '\n' by {
                assert(s[k] == r[k - sh]);
            }
            if i > 0 {
                assert(s[i + sh - 1] == r[i - 1]);
            }
            if j < r.len() {
                assert(s[j + sh] == r[j]);
            }
        }
        // lines of `s` after the first are lines of the rest
        assert forall|i: int, j: int| #[trigger] is_line(s, i, j) && i > 0 implies i >= sh
            && is_line(r, i - sh, j - sh) by {
            if i < sh {
                assert(s[i - 1] != '\n');
            }
            assert forall|k: int| i - sh <= k < j - sh implies #[trigger] r[k] != '\n' by {
                assert(r[k] == s[k + sh]);
            }
            if i - sh > 0 {
                assert(r[i - sh - 1] == s[i - 1]);
            }
            if j < s.len() {
                assert(r[j - sh] == s[j]);
            }
        }
        assert forall|i: int, j: int| is_line(r, i, j) implies #[trigger] r.subrange(i, j)
            == s.subrange(i + sh, j + sh) by {
            assert(r.subrange(i, j) =~= s.subrange(i + sh, j + sh));
        }
        match line_with_prefix(r, p) {
            Some(l) => {
                let (i, j) = choose|i: int, j: int|
                    #[trigger] is_line(r, i, j) && l == r.subrange(i, j) && has_prefix(l, p) && forall|
                        i2: int,
                        j2: int,
                    | #[trigger] is_line(r, i2, j2) && i2 < i ==> !has_prefix(r.subrange(i2, j2), p);
                assert(is_line(s, i + sh, j + sh));
                assert(l == s.subrange(i + sh, j + sh));
                assert forall|i2: int, j2: int| #[trigger] is_line(s, i2, j2) && i2 < i + sh implies !has_prefix(
                    s.subrange(i2, j2),
                    p,
                ) by {
                    if i2 > 0 {
                        assert(is_line(r, i2 - sh, j2 - sh));
                        assert(r.subrange(i2 - sh, j2 - sh) == s.subrange(i2, j2));
                    }
                }
            },
            None => {
                assert forall|i: int, j: int| #[trigger] is_line(s, i, j) implies !has_prefix(
                    s.subrange(i, j),
                    p,
                ) by {
                    if i > 0 {
                        assert(is_line(r, i - sh, j - sh));
                        assert(r.subrange(i - sh, j - sh) == s.subrange(i, j));
                    }
                }
            },
        }
    } else {
        assert forall|i: int, j: int| #[trigger] is_line(s, i, j) implies !has_prefix(
            s.subrange(i, j),
            p,
        ) by {
            if i > 0 {
                assert(s[i - 1] != '\n');
            }
        }
    }
}

/// The monitor source of the default sink named in `pactl info` output:
/// the value of the first `Default Sink:` line, trimmed, with `.monitor`
/// appended.
pub open spec fn default_monitor(info: Seq<char>) -> Option<Seq<char>> {
    match line_with_prefix(info, "Default Sink:"@) {
        Some(line) => Some(trim(line.skip("Default Sink:"@.len() as int)) + ".monitor"@),
        None => None,
    }
}

/// Reads the default sink's monitor source out of `pactl info` output.
pub fn default_monitor_from_info(info: &str) -> (res: Option<String>)
    ensures
        opt_string_view(res) == default_monitor(info@),
{
    let v = chars_of(info);
    let prefix = chars_of("Default Sink:");
    let n = v.len();
    let mut p: usize = 0;
    assert(v@.skip(0) =~= v@);
    loop
        invariant
            n == v@.len(),
            v@ == info@,
            prefix@ == "Default Sink:"@,
            p <= n,
            line_with_prefix(v@, prefix@) == line_with_prefix(v@.skip(p as int), prefix@),
        decreases n - p,
    {
        let e = segment_end(&v, p, '\n');
        let line = slice_chars(&v, p, e);
        let ghost w = v@.skip(p as int);
        assert(line@ =~= w.take(segment_len(w, '\n') as int));
        if starts_with(&line, &prefix) {
            let rest = slice_chars(&line, prefix.len(), line.len());
            assert(rest@ =~= line@.skip(prefix@.len() as int));
            let mut out = trimmed(&rest);
            append_chars(&mut out, &chars_of(".monitor"));
            return Some(string_from(&out));
        }
        if e == n {
            return None;
        }
        assert(w.skip(segment_len(w, '\n') as int + 1) =~= v@.skip(e + 1));
        p = e + 1;
    }
}

/// The source `parec` records: the resolved monitor, or PulseAudio's alias
/// for the default sink's monitor.
pub fn monitor_or_default(resolved: Option<String>) -> (dev: String)
    ensures
        dev@ == match resolved {
            Some(m) => m@,
            None => "@DEFAULT_MONITOR@"@,
        },
{
    match resolved {
        Some(m) => m,
        None => string_from(&chars_of("@DEFAULT_MONITOR@")),
    }
}

fn literal_string(s: &str) -> (res: String)
    ensures
        res@ == s@,
{
    string_from(&chars_of(s))
}

fn prefixed_string(prefix: &str, tail: &Vec<char>) -> (res: String)
    ensures
        res@ == prefix@ + tail@,
{
    let mut v = chars_of(prefix);
    append_chars(&mut v, tail);
    string_from(&v)
}

/// The command-line arguments of `parec` recording `device` as 16-bit
/// little-endian stereo at `sample_rate`, in blocks of about 5 ms.
pub fn parec_args(sample_rate: u32, device: &str) -> (args: Vec<String>)
    ensures
        args@.len() == 6,
        args@[0]@ == "--format=s16le"@,
        args@[1]@ == "--rate="@ + decimal(sample_rate as nat),
        args@[2]@ == "--channels=2"@,
        args@[3]@ == "--client-name=ConexionAirPlay"@,
        args@[4]@ == "--device="@ + device@,
        args@[5]@ == "--latency-msec=5"@,
{
    let mut rate: Vec<char> = Vec::new();
    push_decimal(&mut rate, sample_rate as u64);
    assert(rate@ =~= decimal(sample_rate as nat));
    let mut args: Vec<String> = Vec::new();
    args.push(literal_string("--format=s16le"));
    args.push(prefixed_string("--rate=", &rate));
    args.push(literal_string("--channels=2"));
    args.push(literal_string("--client-name=ConexionAirPlay"));
    args.push(prefixed_string("--device=", &chars_of(device)));
    args.push(literal_string("--latency-msec=5"));
    args
}

/// The position of the first input device whose name, lower-cased, holds
/// `monitor` (the PipeWire / PulseAudio monitor of an output). The pattern
/// is ASCII and no non-ASCII character lower-cases into it, so ASCII
/// lower-casing finds exactly the matches that Unicode lower-casing finds.
pub fn pick_monitor(names: &Vec<String>) -> (res: Option<usize>)
    ensures
        match res {
            Some(i) => i < names@.len() && contains_lowered(names@[i as int]@, "monitor"@)
                && forall|j: int|
                0 <= j < i ==> !contains_lowered(#[trigger] names@[j]@, "monitor"@),
            None => forall|j: int|
                0 <= j < names@.len() ==> !contains_lowered(#[trigger] names@[j]@, "monitor"@),
        },
{
    let pat = chars_of("monitor");
    for i in 0..names.len()
        invariant
            pat@ == "monitor"@,
            forall|j: int| 0 <= j < i ==> !contains_lowered(#[trigger] names@[j]@, "monitor"@),
    {
        if has_substring_lowered(&chars_of(names[i].as_str()), &pat) {
            return Some(i);
        }
    }
    None
}

/// The name a cpal capture reports: that of the monitor input it picked,
/// else that of the default input it fell back to, else "default".
pub open spec fn input_name(picked: Option<Seq<char>>, default_name: Option<Seq<char>>) -> Seq<
    char,
> {
    match picked {
        Some(n) if n.len() > 0 => n,
        _ => match default_name {
            Some(d) => d,
            None => "default"@,
        },
    }
}

/// The name a cpal capture reports (see [`input_name`]); `default_name` is
/// the default input's name, where it could be read.
pub fn capture_input_name(picked: Option<String>, default_name: Option<String>) -> (name: String)
    ensures
        name@ == input_name(opt_string_view(picked), opt_string_view(default_name)),
{
    let fallback = match default_name {
        Some(d) => d,
        None => string_from(&chars_of("default")),
    };
    match picked {
        Some(n) => if chars_of(n.as_str()).len() > 0 {
            n
        } else {
            fallback
        },
        None => fallback,
    }
}

} // verus!
