//! Applications: reading the foreground application and the running
//! applications from the system tools' output, their display names, and the
//! list of applications whose copies are not recorded.

use vstd::prelude::*;
use crate::model::RunningApp;
use crate::outside::{lowercase, spec_lowercase, string_from_chars};
use crate::text::{
    chars_of, contains_chars, contains_sub, is_digit, split_chars, split_on, starts_with_chars,
    starts_with_seq, strip_char, strip_chars, trim_bounds, trim_seq, lemma_split_on_len,
};
use crate::textsort::{TextKey, sort_tkeys, sorted_tkeys, tk};

verus! {

/// The value of a running application: (bundle id, name).
pub open spec fn app_v(a: RunningApp) -> (Seq<char>, Seq<char>) {
    (a.bundle_id@, a.name@)
}

/// The field that `lsappinfo` prints in quotes: the fourth piece when the
/// text is split at `"` (`split('"').nth(3)`).
pub open spec fn quoted_value(s: Seq<char>) -> Option<Seq<char>> {
    let p = split_on(s, '"');
    if p.len() > 3 {
        Some(p[3])
    } else {
        None
    }
}

fn quoted_value_exec(cs: &Vec<char>) -> (r: Option<Vec<char>>)
    ensures
        match r {
            Some(v) => quoted_value(cs@) == Some(v@),
            None => quoted_value(cs@) is None,
        },
{
    let pieces = split_chars(cs, '"');
    if pieces.len() > 3 {
        proof {
            assert(pieces@.map_values(|p: Vec<char>| p@)[3] == pieces@[3]@);
        }
        Some(pieces[3].clone())
    } else {
        None
    }
}

/// The bundle id of the foreground application, from the output of
/// `lsappinfo front` (the application's serial number) and of
/// `lsappinfo info -only bundleid <serial>`.
pub open spec fn frontmost_bundle(front_output: Seq<char>, info_output: Seq<char>) -> Option<Seq<char>> {
    if trim_seq(front_output).len() == 0 {
        None
    } else {
        quoted_value(trim_seq(info_output))
    }
}

/// The application serial number in the output of `lsappinfo front`, if any.
pub fn front_serial(front_output: &str) -> (r: Option<String>)
    ensures
        match r {
            Some(s) => s@ == trim_seq(front_output@) && s@.len() > 0,
            None => trim_seq(front_output@).len() == 0,
        },
{
    let t = crate::text::trim_str(front_output);
    if t.as_str().is_empty() {
        None
    } else {
        Some(t)
    }
}

/// The bundle id of the foreground application, from the two outputs of
/// `lsappinfo`.
pub fn get_frontmost_app_bundle_id(front_output: &str, info_output: &str) -> (r: Option<String>)
    ensures
        crate::model::ov(r) == frontmost_bundle(front_output@, info_output@),
{
    let f = crate::text::trim_str(front_output);
    if f.as_str().is_empty() {
        return None;
    }
    let cs = chars_of(info_output);
    let (a, b) = trim_bounds(&cs);
    let mut t: Vec<char> = Vec::new();
    let mut k: usize = a;
    while k < b
        invariant
            a <= k <= b <= cs@.len(),
            t@ == cs@.subrange(a as int, k as int),
        decreases b - k,
    {
        t.push(cs[k]);
        proof {
            assert(cs@.subrange(a as int, k + 1) =~= cs@.subrange(a as int, k as int).push(cs@[k as int]));
        }
        k = k + 1;
    }
    match quoted_value_exec(&t) {
        Some(v) => Some(string_from_chars(v.as_slice())),
        None => None,
    }
}

/// The display name of an application on macOS: the quoted name that
/// `lsappinfo info -only name <id>` printed, when it printed a non-empty
/// one, else the last dot-separated part of the bundle id.
pub open spec fn display_name_mac(app_id: Seq<char>, lookup: Option<Seq<char>>) -> Seq<char> {
    match lookup {
        Some(out) if quoted_value(out) matches Some(n) && n.len() > 0 => quoted_value(out)->0,
        _ => split_on(app_id, '.').last(),
    }
}

/// The display name of an application on macOS.
pub fn resolve_app_name_mac(app_id: &str, lookup: Option<&str>) -> (r: String)
    ensures
        r@ == display_name_mac(app_id@, crate::model::osv(lookup)),
{
    if let Some(out) = lookup {
        let cs = chars_of(out);
        if let Some(v) = quoted_value_exec(&cs) {
            if v.len() > 0 {
                return string_from_chars(v.as_slice());
            }
        }
    }
    let cs = chars_of(app_id);
    let pieces = split_chars(&cs, '.');
    proof {
        lemma_split_on_len(cs@, '.');
        assert(pieces@.map_values(|p: Vec<char>| p@)[pieces@.len() - 1] == pieces@[pieces@.len() - 1]@);
    }
    string_from_chars(pieces[pieces.len() - 1].as_slice())
}

/// `s` with every trailing `.exe` removed (`trim_end_matches(".exe")`).
pub open spec fn strip_exe(s: Seq<char>) -> Seq<char>
    decreases s.len(),
{
    if s.len() >= 4 && s.subrange(s.len() - 4, s.len() as int) == ".exe"@ {
        strip_exe(s.subrange(0, s.len() - 4))
    } else {
        s
    }
}

/// The display name of an application on Windows: its executable name
/// without the `.exe` suffix.
pub fn resolve_app_name_windows(app_id: &str) -> (r: String)
    ensures
        r@ == strip_exe(app_id@),
{
    let cs = chars_of(app_id);
    let mut n: usize = cs.len();
    proof {
        assert(cs@.subrange(0, n as int) =~= cs@);
    }
    while n >= 4 && cs[n - 4] == '.' && cs[n - 3] == 'e' && cs[n - 2] == 'x' && cs[n - 1] == 'e'
        invariant
            0 <= n <= cs@.len(),
            strip_exe(cs@) == strip_exe(cs@.subrange(0, n as int)),
        decreases n,
    {
        proof {
            reveal_strlit(".exe");
            let t = cs@.subrange(0, n as int);
            assert(t.subrange(t.len() - 4, t.len() as int) =~= ".exe"@);
            assert(t.subrange(0, t.len() - 4) =~= cs@.subrange(0, n - 4));
        }
        n = n - 4;
    }
    proof {
        reveal_strlit(".exe");
        let t = cs@.subrange(0, n as int);
        if t.len() >= 4 {
            assert(t.subrange(t.len() - 4, t.len() as int)[0] == cs@[n - 4]);
            assert(t.subrange(t.len() - 4, t.len() as int)[1] == cs@[n - 3]);
            assert(t.subrange(t.len() - 4, t.len() as int)[2] == cs@[n - 2]);
            assert(t.subrange(t.len() - 4, t.len() as int)[3] == cs@[n - 1]);
            if t.subrange(t.len() - 4, t.len() as int) == ".exe"@ {
                assert(".exe"@[0] == '.');
            }
        }
    }
    app_id.substring_char(0, n).to_owned()
}

/// The executable name of a program path on Windows: the part after the
/// last backslash, in lower case.
pub open spec fn exe_name(path: Seq<char>) -> Seq<char> {
    spec_lowercase(split_on(path, '\\').last())
}

/// The executable name of a program path.
pub fn exe_name_of(path: &str) -> (r: String)
    ensures
        r@ == exe_name(path@),
{
    let cs = chars_of(path);
    let pieces = split_chars(&cs, '\\');
    proof {
        lemma_split_on_len(cs@, '\\');
        assert(pieces@.map_values(|p: Vec<char>| p@)[pieces@.len() - 1] == pieces@[pieces@.len() - 1]@);
    }
    let last = string_from_chars(pieces[pieces.len() - 1].as_slice());
    lowercase(last.as_str())
}


// ---------- running applications ----------

/// The state of a scan through `lsappinfo list` output: the applications
/// found so far as (bundle id, name), and the entry being read.
pub struct AppScan {
    pub apps: Seq<(Seq<char>, Seq<char>)>,
    pub name: Option<Seq<char>>,
    pub bundle: Option<Seq<char>>,
    pub foreground: bool,
}

/// Whether a (trimmed) line starts an application entry: it begins with a
/// digit and holds a quote, as in `12) "Finder" ASN:...`.
pub open spec fn entry_line(t: Seq<char>) -> bool {
    t.len() > 0 && is_digit(t[0]) && t.contains('"')
}

/// The quoted name on an entry line.
pub open spec fn entry_name(t: Seq<char>) -> Option<Seq<char>> {
    let p = split_on(t, '"');
    if p.len() >= 3 {
        Some(p[1])
    } else {
        None
    }
}

/// Whether a line gives the bundle id of the entry.
pub open spec fn bundle_line(t: Seq<char>) -> bool {
    starts_with_seq(t, "\"CFBundleIdentifier\"="@) || starts_with_seq(t, "bundleID="@)
}

/// The bundle id on such a line: the quoted value, or else what follows
/// the last `=`, without surrounding quotes.
pub open spec fn bundle_value(t: Seq<char>) -> Seq<char> {
    let v = match quoted_value(t) {
        Some(q) => q,
        None => split_on(t, '=').last(),
    };
    strip_char(v, '"')
}

/// The entry read so far, if it is a foreground application with a name
/// and a bundle id, added to the list.
pub open spec fn flush(st: AppScan) -> Seq<(Seq<char>, Seq<char>)> {
    match (st.name, st.bundle) {
        (Some(n), Some(b)) if st.foreground && b.len() > 0 && n.len() > 0 => st.apps.push((b, n)),
        _ => st.apps,
    }
}

/// One line of `lsappinfo list` output read.
pub open spec fn scan_step(st: AppScan, line: Seq<char>) -> AppScan {
    let t = trim_seq(line);
    let s1 = if entry_line(t) {
        AppScan { apps: flush(st), name: entry_name(t), bundle: None, foreground: false }
    } else {
        st
    };
    let s2 = if contains_sub(t, "type=\"Foreground\""@) {
        AppScan { foreground: true, ..s1 }
    } else {
        s1
    };
    if bundle_line(t) && bundle_value(t).len() > 0 && bundle_value(t) != "[ NULL ]"@ {
        AppScan { bundle: Some(bundle_value(t)), ..s2 }
    } else {
        s2
    }
}

/// The first `n` lines read.
pub open spec fn scan_lines(lines: Seq<Seq<char>>, n: int) -> AppScan
    decreases n,
{
    if n <= 0 {
        AppScan { apps: Seq::empty(), name: None, bundle: None, foreground: false }
    } else {
        scan_step(scan_lines(lines, n - 1), lines[n - 1])
    }
}

/// The foreground applications listed in `lsappinfo list` output, in order.
pub open spec fn listed_apps(text: Seq<char>) -> Seq<(Seq<char>, Seq<char>)> {
    let lines = split_on(text, '\n');
    flush(scan_lines(lines, lines.len() as int))
}

/// Whether a bundle id is this clipboard manager's own.
pub open spec fn own_app(bundle: Seq<char>) -> bool {
    contains_sub(bundle, "clipboard-ultra"@) || contains_sub(bundle, "clipboard-pro"@)
}

/// The sort keys of applications: the lower-case name and the position.
pub open spec fn name_keys(apps: Seq<(Seq<char>, Seq<char>)>, n: int) -> Seq<TextKey>
    decreases n,
{
    if n <= 0 {
        Seq::empty()
    } else {
        name_keys(apps, n - 1).push((spec_lowercase(apps[n - 1].1), (n - 1) as usize))
    }
}

/// Applications in order of their lower-case names; equal names keep their
/// order (a stable sort).
pub open spec fn sort_by_name(apps: Seq<(Seq<char>, Seq<char>)>) -> Seq<(Seq<char>, Seq<char>)> {
    sorted_tkeys(name_keys(apps, apps.len() as int)).map_values(|k: TextKey| apps[k.1 as int])
}

/// The applications with each bundle id listed once, at its first
/// occurrence.
pub open spec fn dedup_bundles(s: Seq<(Seq<char>, Seq<char>)>) -> Seq<(Seq<char>, Seq<char>)>
    decreases s.len(),
{
    if s.len() == 0 {
        s
    } else {
        let r = dedup_bundles(s.drop_last());
        if exists|j: int| 0 <= j < s.len() - 1 && #[trigger] s[j].0 == s.last().0 {
            r
        } else {
            r.push(s.last())
        }
    }
}

/// Deduplication keeps only listed applications, lists no bundle id twice,
/// and keeps every bundle id of the list.
pub proof fn lemma_dedup_bundles(s: Seq<(Seq<char>, Seq<char>)>)
    ensures
        forall|x: (Seq<char>, Seq<char>)| #[trigger] dedup_bundles(s).contains(x) ==> s.contains(x),
        forall|a: int, b: int|
            0 <= a < b < dedup_bundles(s).len() ==> (#[trigger] dedup_bundles(s)[a]).0 != (
            #[trigger] dedup_bundles(s)[b]).0,
        forall|j: int| 0 <= j < s.len() ==> exists|k: int|
            0 <= k < dedup_bundles(s).len() && (#[trigger] dedup_bundles(s)[k]).0 == (#[trigger] s[j]).0,
    decreases s.len(),
{
    if s.len() > 0 {
        let d = s.drop_last();
        lemma_dedup_bundles(d);
        let r = dedup_bundles(d);
        let t = dedup_bundles(s);
        assert forall|x: (Seq<char>, Seq<char>)| #[trigger] t.contains(x) implies s.contains(x) by {
            let k = choose|k: int| 0 <= k < t.len() && t[k] == x;
            if k < r.len() {
                assert(r[k] == x);
                assert(r.contains(x));
                let m = choose|m: int| 0 <= m < d.len() && d[m] == x;
                assert(s[m] == x);
            } else {
                assert(s[s.len() - 1] == x);
            }
        }
        if !(exists|j: int| 0 <= j < s.len() - 1 && #[trigger] s[j].0 == s.last().0) {
            assert forall|a: int, b: int| 0 <= a < b < t.len() implies (#[trigger] t[a]).0 != (#[trigger] t[b]).0 by {
                if b == t.len() - 1 {
                    assert(t[a] == r[a]);
                    assert(r.contains(r[a]));
                    let m = choose|m: int| 0 <= m < d.len() && d[m] == r[a];
                    assert(s[m] == d[m]);
                } else {
                    assert(t[a] == r[a] && t[b] == r[b]);
                }
            }
        }
        assert forall|j: int| 0 <= j < s.len() implies exists|k: int|
            0 <= k < t.len() && (#[trigger] t[k]).0 == (#[trigger] s[j]).0 by {
            if j < s.len() - 1 {
                assert(s[j] == d[j]);
                let k = choose|k: int| 0 <= k < r.len() && (#[trigger] r[k]).0 == d[j].0;
                assert(t[k] == r[k]);
            } else if exists|i: int| 0 <= i < s.len() - 1 && #[trigger] s[i].0 == s.last().0 {
                let i = choose|i: int| 0 <= i < s.len() - 1 && #[trigger] s[i].0 == s.last().0;
                assert(s[i] == d[i]);
                let k = choose|k: int| 0 <= k < r.len() && (#[trigger] r[k]).0 == d[i].0;
                assert(t[k] == r[k]);
            } else {
                assert(t[r.len() as int] == s.last());
            }
        }
    }
}

/// The running applications on macOS from `lsappinfo list` output: the
/// foreground applications other than this one, sorted by name, each
/// bundle id listed once (its first occurrence in that order).
pub open spec fn running_apps_mac(text: Seq<char>) -> Seq<(Seq<char>, Seq<char>)> {
    dedup_bundles(sort_by_name(listed_apps(text).filter(|a: (Seq<char>, Seq<char>)| !own_app(a.0))))
}

/// The running applications on Windows from the visible windows, as
/// (executable name, window title) in enumeration order: this application's
/// windows are skipped, each executable is listed once (its first window),
/// and the list is sorted by title.
pub open spec fn running_apps_windows(raw: Seq<(Seq<char>, Seq<char>)>) -> Seq<(Seq<char>, Seq<char>)> {
    sort_by_name(
        crate::db::keep_where(
            raw,
            raw.len() as int,
            |i: int| !own_app(raw[i].0) && forall|j: int| 0 <= j < i ==> #[trigger] raw[j].0 != raw[i].0,
        ),
    )
}

/// The view of an optional character vector.
pub open spec fn ocv(o: Option<Vec<char>>) -> Option<Seq<char>> {
    match o {
        Some(v) => Some(v@),
        None => None,
    }
}

fn flush_exec(
    apps: &mut Vec<RunningApp>,
    name: &Option<Vec<char>>,
    bundle: &Option<Vec<char>>,
    foreground: bool,
)
    ensures
        final(apps)@.map_values(|a: RunningApp| app_v(a)) == flush(
            AppScan {
                apps: old(apps)@.map_values(|a: RunningApp| app_v(a)),
                name: ocv(*name),
                bundle: ocv(*bundle),
                foreground,
            },
        ),
{
    if foreground {
        match (name, bundle) {
            (Some(n), Some(b)) => {
                if b.len() > 0 && n.len() > 0 {
                    let a = RunningApp {
                        bundle_id: string_from_chars(b.as_slice()),
                        name: string_from_chars(n.as_slice()),
                    };
                    let ghost before = apps@;
                    apps.push(a);
                    proof {
                        assert(apps@.map_values(|a: RunningApp| app_v(a)) =~= before.map_values(
                            |a: RunningApp| app_v(a),
                        ).push((b@, n@)));
                    }
                }
            },
            _ => {},
        }
    }
}

/// The foreground applications listed in `lsappinfo list` output.
pub fn parse_app_list(text: &str) -> (r: Vec<RunningApp>)
    ensures
        r@.map_values(|a: RunningApp| app_v(a)) == listed_apps(text@),
{
    let cs = chars_of(text);
    let lines = split_chars(&cs, '\n');
    let ghost lv = lines@.map_values(|p: Vec<char>| p@);
    let fg_pat = chars_of("type=\"Foreground\"");
    let cf_pat = chars_of("\"CFBundleIdentifier\"=");
    let bid_pat = chars_of("bundleID=");
    let null_pat = chars_of("[ NULL ]");
    let mut apps: Vec<RunningApp> = Vec::new();
    let mut name: Option<Vec<char>> = None;
    let mut bundle: Option<Vec<char>> = None;
    let mut fg = false;
    let mut i: usize = 0;
    proof {
        assert(apps@.map_values(|a: RunningApp| app_v(a)) =~= Seq::<(Seq<char>, Seq<char>)>::empty());
    }
    while i < lines.len()
        invariant
            0 <= i <= lines@.len(),
            lv == lines@.map_values(|p: Vec<char>| p@),
            lv == split_on(text@, '\n'),
            fg_pat@ == "type=\"Foreground\""@,
            cf_pat@ == "\"CFBundleIdentifier\"="@,
            bid_pat@ == "bundleID="@,
            null_pat@ == "[ NULL ]"@,
            scan_lines(lv, i as int) == (AppScan {
                apps: apps@.map_values(|a: RunningApp| app_v(a)),
                name: ocv(name),
                bundle: ocv(bundle),
                foreground: fg,
            }),
        decreases lines.len() - i,
    {
        let line = &lines[i];
        proof {
            assert(lv[i as int] == line@);
        }
        let (a, b) = trim_bounds(line);
        let mut t: Vec<char> = Vec::new();
        let mut k: usize = a;
        while k < b
            invariant
                a <= k <= b <= line@.len(),
                t@ == line@.subrange(a as int, k as int),
            decreases b - k,
        {
            t.push(line[k]);
            proof {
                assert(line@.subrange(a as int, k + 1) =~= line@.subrange(a as int, k as int).push(line@[k as int]));
            }
            k = k + 1;
        }
        // a new entry
        let mut has_quote = false;
        let mut q: usize = 0;
        while q < t.len() && !has_quote
            invariant
                0 <= q <= t@.len(),
                has_quote ==> t@.contains('"'),
                !has_quote ==> forall|z: int| 0 <= z < q ==> t@[z] != '"',
            decreases t.len() - q, if has_quote { 0int } else { 1int },
        {
            if t[q] == '"' {
                has_quote = true;
                proof {
                    assert(t@[q as int] == '"');
                }
            } else {
                q = q + 1;
            }
        }
        let is_entry = t.len() > 0 && '0' <= t[0] && t[0] <= '9' && has_quote;
        proof {
            if !has_quote {
                assert(!t@.contains('"'));
            }
            assert(is_entry == entry_line(t@));
        }
        if is_entry {
            flush_exec(&mut apps, &name, &bundle, fg);
            let pieces = split_chars(&t, '"');
            name = if pieces.len() >= 3 {
                proof {
                    assert(pieces@.map_values(|p: Vec<char>| p@)[1] == pieces@[1]@);
                }
                Some(pieces[1].clone())
            } else {
                None
            };
            bundle = None;
            fg = false;
        }
        if contains_chars(&t, &fg_pat) {
            fg = true;
        }
        if starts_with_chars(&t, &cf_pat) || starts_with_chars(&t, &bid_pat) {
            let v = match quoted_value_exec(&t) {
                Some(qv) => qv,
                None => {
                    let pieces = split_chars(&t, '=');
                    proof {
                        lemma_split_on_len(t@, '=');
                        assert(pieces@.map_values(|p: Vec<char>| p@)[pieces@.len() - 1] == pieces@[pieces@.len() - 1]@);
                    }
                    pieces[pieces.len() - 1].clone()
                },
            };
            let clean = strip_chars(&v, '"');
            let is_null = clean.len() == null_pat.len() && starts_with_chars(&clean, &null_pat);
            proof {
                if clean@.len() == null_pat@.len() {
                    assert(clean@.take(null_pat@.len() as int) =~= clean@);
                }
            }
            if clean.len() > 0 && !is_null {
                bundle = Some(clean);
            }
        }
        proof {
            assert(t@ == trim_seq(lv[i as int]));
        }
        i = i + 1;
    }
    flush_exec(&mut apps, &name, &bundle, fg);
    apps
}

/// Applications sorted by lower-case name, stably.
pub fn sort_apps_by_name(apps: Vec<RunningApp>) -> (r: Vec<RunningApp>)
    ensures
        r@.map_values(|a: RunningApp| app_v(a)) == sort_by_name(apps@.map_values(|a: RunningApp| app_v(a))),
{
    let ghost av = apps@.map_values(|a: RunningApp| app_v(a));
    let mut keys: Vec<(Vec<char>, usize)> = Vec::new();
    let mut i: usize = 0;
    while i < apps.len()
        invariant
            0 <= i <= apps@.len(),
            av == apps@.map_values(|a: RunningApp| app_v(a)),
            keys@.map_values(|e: (Vec<char>, usize)| tk(e)) == name_keys(av, i as int),
        decreases apps.len() - i,
    {
        let low = lowercase(apps[i].name.as_str());
        let lc = chars_of(low.as_str());
        let ghost before = keys@;
        keys.push((lc, i));
        proof {
            assert(av[i as int] == app_v(apps@[i as int]));
            assert(keys@.map_values(|e: (Vec<char>, usize)| tk(e)) =~= before.map_values(
                |e: (Vec<char>, usize)| tk(e),
            ).push((spec_lowercase(av[i as int].1), i)));
        }
        i = i + 1;
    }
    let ghost kv = keys@.map_values(|e: (Vec<char>, usize)| tk(e));
    proof {
        name_keys_bound(av, av.len() as int);
        crate::textsort::lemma_tkey_order_total();
        kv.lemma_sort_by_ensures(crate::textsort::tkey_order());
    }
    let sorted = sort_tkeys(keys);
    let ghost sv = sorted@.map_values(|e: (Vec<char>, usize)| tk(e));
    proof {
        assert forall|k: TextKey| #[trigger] sv.contains(k) implies (k.1 as int) < av.len() by {
            if !kv.contains(k) {
                assert(!kv.sort_by(crate::textsort::tkey_order()).contains(k));
            }
        }
    }
    let mut out: Vec<RunningApp> = Vec::new();
    let mut j: usize = 0;
    while j < sorted.len()
        invariant
            0 <= j <= sorted@.len(),
            sv == sorted@.map_values(|e: (Vec<char>, usize)| tk(e)),
            sv == sorted_tkeys(name_keys(av, av.len() as int)),
            av == apps@.map_values(|a: RunningApp| app_v(a)),
            forall|k: TextKey| #[trigger] sv.contains(k) ==> (k.1 as int) < av.len(),
            out@.map_values(|a: RunningApp| app_v(a)) == sv.take(j as int).map_values(|k: TextKey| av[k.1 as int]),
        decreases sorted.len() - j,
    {
        let pos = sorted[j].1;
        proof {
            assert(sv[j as int] == tk(sorted@[j as int]));
            assert(sv.contains(sv[j as int]));
        }
        let a = RunningApp { bundle_id: apps[pos].bundle_id.clone(), name: apps[pos].name.clone() };
        let ghost before = out@;
        out.push(a);
        proof {
            assert(av[pos as int] == app_v(apps@[pos as int]));
            assert(sv.take(j + 1) =~= sv.take(j as int).push(sv[j as int]));
            assert(out@.map_values(|a: RunningApp| app_v(a)) =~= before.map_values(|a: RunningApp| app_v(a)).push(
                app_v(a),
            ));
        }
        j = j + 1;
    }
    proof {
        assert(sv.take(sv.len() as int) =~= sv);
    }
    out
}

proof fn name_keys_bound(apps: Seq<(Seq<char>, Seq<char>)>, n: int)
    requires
        0 <= n <= apps.len() <= usize::MAX,
    ensures
        name_keys(apps, n).len() == n,
        forall|k: TextKey| #[trigger] name_keys(apps, n).contains(k) ==> (k.1 as int) < n,
    decreases n,
{
    if n > 0 {
        name_keys_bound(apps, n - 1);
        let r = name_keys(apps, n - 1);
        let t = name_keys(apps, n);
        assert forall|k: TextKey| #[trigger] t.contains(k) implies (k.1 as int) < n by {
            let j = choose|j: int| 0 <= j < t.len() && t[j] == k;
            if j < r.len() {
                assert(r[j] == t[j]);
                assert(r.contains(k));
            }
        }
    }
}

/// Each bundle id kept once, at its first occurrence.
pub fn dedup_apps(apps: Vec<RunningApp>) -> (r: Vec<RunningApp>)
    ensures
        r@.map_values(|a: RunningApp| app_v(a)) == dedup_bundles(apps@.map_values(|a: RunningApp| app_v(a))),
{
    let ghost av = apps@.map_values(|a: RunningApp| app_v(a));
    let mut out: Vec<RunningApp> = Vec::new();
    let mut i: usize = 0;
    while i < apps.len()
        invariant
            0 <= i <= apps@.len(),
            av == apps@.map_values(|a: RunningApp| app_v(a)),
            out@.map_values(|a: RunningApp| app_v(a)) == dedup_bundles(av.take(i as int)),
        decreases apps.len() - i,
    {
        let mut seen = false;
        let mut j: usize = 0;
        while j < i
            invariant
                0 <= j <= i < apps@.len(),
                av == apps@.map_values(|a: RunningApp| app_v(a)),
                seen ==> exists|m: int| 0 <= m < j && #[trigger] av[m].0 == av[i as int].0,
                !seen ==> forall|m: int| 0 <= m < j ==> #[trigger] av[m].0 != av[i as int].0,
            decreases i - j,
        {
            proof {
                assert(av[j as int] == app_v(apps@[j as int]));
                assert(av[i as int] == app_v(apps@[i as int]));
            }
            let eq = crate::text::same_text(apps[j].bundle_id.as_str(), apps[i].bundle_id.as_str());
            if eq {
                seen = true;
            }
            proof {
                if eq {
                    assert(av[j as int].0 == av[i as int].0);
                }
            }
            j = j + 1;
        }
        let keep = !seen;
        let ghost before = out@;
        proof {
            let t = av.take(i + 1);
            assert(t.drop_last() =~= av.take(i as int));
            assert(t.last() == app_v(apps@[i as int]));
            assert(av[i as int] == app_v(apps@[i as int]));
            assert forall|m: int| 0 <= m < t.len() - 1 implies #[trigger] t[m] == av[m] by {}
            if i == 0 {
                assert(dedup_bundles(av.take(0)) =~= Seq::<(Seq<char>, Seq<char>)>::empty());
            }
            if seen {
                let m = choose|m: int| 0 <= m < i && #[trigger] av[m].0 == av[i as int].0;
                assert(t[m] == av[m]);
                assert(exists|m: int| 0 <= m < t.len() - 1 && #[trigger] t[m].0 == t.last().0);
            } else {
                assert forall|m: int| 0 <= m < t.len() - 1 implies #[trigger] t[m].0 != t.last().0 by {
                    assert(t[m] == av[m]);
                }
            }
        }
        if keep {
            out.push(RunningApp { bundle_id: apps[i].bundle_id.clone(), name: apps[i].name.clone() });
            proof {
                assert(out@.map_values(|a: RunningApp| app_v(a)) =~= before.map_values(|a: RunningApp| app_v(a)).push(
                    app_v(apps@[i as int]),
                ));
            }
        }
        i = i + 1;
    }
    proof {
        assert(av.take(i as int) =~= av);
    }
    out
}

/// The running applications on macOS, from `lsappinfo list` output.
pub fn get_running_apps_mac(list_output: &str) -> (r: Vec<RunningApp>)
    ensures
        r@.map_values(|a: RunningApp| app_v(a)) == running_apps_mac(list_output@),
{
    let listed = parse_app_list(list_output);
    let ghost lv = listed@.map_values(|a: RunningApp| app_v(a));
    let ghost pred = |a: (Seq<char>, Seq<char>)| !own_app(a.0);
    let ultra = chars_of("clipboard-ultra");
    let pro = chars_of("clipboard-pro");
    let mut kept: Vec<RunningApp> = Vec::new();
    let mut i: usize = 0;
    while i < listed.len()
        invariant
            0 <= i <= listed@.len(),
            lv == listed@.map_values(|a: RunningApp| app_v(a)),
            pred == (|a: (Seq<char>, Seq<char>)| !own_app(a.0)),
            ultra@ == "clipboard-ultra"@,
            pro@ == "clipboard-pro"@,
            kept@.map_values(|a: RunningApp| app_v(a)) == lv.take(i as int).filter(pred),
        decreases listed.len() - i,
    {
        let b = chars_of(listed[i].bundle_id.as_str());
        let own = contains_chars(&b, &ultra) || contains_chars(&b, &pro);
        let ghost before = kept@;
        proof {
            assert(lv[i as int] == app_v(listed@[i as int]));
            assert(lv.take(i + 1) =~= lv.take(i as int).push(lv[i as int]));
            lv.take(i as int).lemma_filter_push(lv[i as int], pred);
        }
        if !own {
            kept.push(RunningApp { bundle_id: listed[i].bundle_id.clone(), name: listed[i].name.clone() });
            proof {
                assert(kept@.map_values(|a: RunningApp| app_v(a)) =~= before.map_values(|a: RunningApp| app_v(a)).push(
                    lv[i as int],
                ));
            }
        }
        i = i + 1;
    }
    proof {
        assert(lv.take(i as int) =~= lv);
    }
    let sorted = sort_apps_by_name(kept);
    dedup_apps(sorted)
}

/// The running applications on Windows, from (executable name, window
/// title) pairs of the visible windows in enumeration order.
pub fn get_running_apps_windows(raw: &Vec<(String, String)>) -> (r: Vec<RunningApp>)
    ensures
        r@.map_values(|a: RunningApp| app_v(a)) == running_apps_windows(
            raw@.map_values(|p: (String, String)| (p.0@, p.1@)),
        ),
{
    let ghost rv = raw@.map_values(|p: (String, String)| (p.0@, p.1@));
    let ghost keep = |i: int| !own_app(rv[i].0) && forall|j: int| 0 <= j < i ==> #[trigger] rv[j].0 != rv[i].0;
    let ultra = chars_of("clipboard-ultra");
    let pro = chars_of("clipboard-pro");
    let mut kept: Vec<RunningApp> = Vec::new();
    let mut i: usize = 0;
    while i < raw.len()
        invariant
            0 <= i <= raw@.len(),
            rv == raw@.map_values(|p: (String, String)| (p.0@, p.1@)),
            keep == (|i: int| !own_app(rv[i].0) && forall|j: int| 0 <= j < i ==> #[trigger] rv[j].0 != rv[i].0),
            ultra@ == "clipboard-ultra"@,
            pro@ == "clipboard-pro"@,
            kept@.map_values(|a: RunningApp| app_v(a)) == crate::db::keep_where(rv, i as int, keep),
        decreases raw.len() - i,
    {
        let b = chars_of(raw[i].0.as_str());
        let own = contains_chars(&b, &ultra) || contains_chars(&b, &pro);
        let mut seen = false;
        let mut j: usize = 0;
        while j < i && !seen
            invariant
                0 <= j <= i < raw@.len(),
                rv == raw@.map_values(|p: (String, String)| (p.0@, p.1@)),
                seen ==> exists|z: int| 0 <= z < i && #[trigger] rv[z].0 == rv[i as int].0,
                !seen ==> forall|z: int| 0 <= z < j ==> #[trigger] rv[z].0 != rv[i as int].0,
            decreases i - j, if seen { 0int } else { 1int },
        {
            proof {
                assert(rv[j as int].0 == raw@[j as int].0@);
                assert(rv[i as int].0 == raw@[i as int].0@);
            }
            if raw[j].0 == raw[i].0 {
                seen = true;
            } else {
                j = j + 1;
            }
        }
        let ghost before = kept@;
        proof {
            assert(rv[i as int].0 == b@);
            assert(keep(i as int) == (!own && !seen));
        }
        if !own && !seen {
            kept.push(RunningApp { bundle_id: raw[i].0.clone(), name: raw[i].1.clone() });
            proof {
                assert(kept@.map_values(|a: RunningApp| app_v(a)) =~= before.map_values(|a: RunningApp| app_v(a)).push(
                    rv[i as int],
                ));
            }
        }
        i = i + 1;
    }
    sort_apps_by_name(kept)
}

// ---------- excluded applications ----------

/// The excluded list with an application added at the end, unless it is
/// there already.
pub open spec fn with_app(list: Seq<Seq<char>>, app: Seq<char>) -> Seq<Seq<char>> {
    if list.contains(app) {
        list
    } else {
        list.push(app)
    }
}

/// The excluded list without any copy of an application.
pub open spec fn without_app(list: Seq<Seq<char>>, app: Seq<char>) -> Seq<Seq<char>> {
    list.filter(|s: Seq<char>| s != app)
}

/// Adds an application to the excluded list unless it is there.
pub fn add_excluded_app(list: &mut Vec<String>, bundle_id: &str)
    ensures
        final(list)@.map_values(|s: String| s@) == with_app(old(list)@.map_values(|s: String| s@), bundle_id@),
{
    let ghost lv = list@.map_values(|s: String| s@);
    let mut i: usize = 0;
    while i < list.len()
        invariant
            0 <= i <= list@.len(),
            lv == list@.map_values(|s: String| s@),
            forall|j: int| 0 <= j < i ==> lv[j] != bundle_id@,
        decreases list.len() - i,
    {
        proof {
            assert(lv[i as int] == list@[i as int]@);
        }
        if crate::text::same_text(list[i].as_str(), bundle_id) {
            proof {
                assert(lv.contains(bundle_id@));
            }
            return;
        }
        i = i + 1;
    }
    list.push(bundle_id.to_owned());
    proof {
        assert(list@.map_values(|s: String| s@) =~= lv.push(bundle_id@));
    }
}

/// Removes every copy of an application from the excluded list.
pub fn remove_excluded_app(list: &mut Vec<String>, bundle_id: &str)
    ensures
        final(list)@.map_values(|s: String| s@) == without_app(old(list)@.map_values(|s: String| s@), bundle_id@),
{
    let ghost lv = list@.map_values(|s: String| s@);
    let ghost pred = |s: Seq<char>| s != bundle_id@;
    let mut kept: Vec<String> = Vec::new();
    let mut i: usize = 0;
    while i < list.len()
        invariant
            0 <= i <= list@.len(),
            lv == list@.map_values(|s: String| s@),
            pred == (|s: Seq<char>| s != bundle_id@),
            kept@.map_values(|s: String| s@) == lv.take(i as int).filter(pred),
        decreases list.len() - i,
    {
        let ghost before = kept@;
        proof {
            assert(lv[i as int] == list@[i as int]@);
            assert(lv.take(i + 1) =~= lv.take(i as int).push(lv[i as int]));
            lv.take(i as int).lemma_filter_push(lv[i as int], pred);
        }
        if !crate::text::same_text(list[i].as_str(), bundle_id) {
            kept.push(list[i].clone());
            proof {
                assert(kept@.map_values(|s: String| s@) =~= before.map_values(|s: String| s@).push(lv[i as int]));
            }
        }
        i = i + 1;
    }
    proof {
        assert(lv.take(i as int) =~= lv);
    }
    *list = kept;
}

/// Whether copies made in the application `app_id` are not recorded. On
/// Windows (where executable names are lower case) the list is compared in
/// lower case.
pub fn is_excluded(list: &Vec<String>, app_id: &str, lower_case: bool) -> (r: bool)
    ensures
        r == exists|i: int|
            0 <= i < list@.len() && (if lower_case {
                spec_lowercase(#[trigger] list@[i]@) == app_id@
            } else {
                list@[i]@ == app_id@
            }),
{
    let mut i: usize = 0;
    while i < list.len()
        invariant
            0 <= i <= list@.len(),
            forall|j: int|
                0 <= j < i ==> !(if lower_case {
                    spec_lowercase(#[trigger] list@[j]@) == app_id@
                } else {
                    list@[j]@ == app_id@
                }),
        decreases list.len() - i,
    {
        let hit = if lower_case {
            let l = lowercase(list[i].as_str());
            crate::text::same_text(l.as_str(), app_id)
        } else {
            crate::text::same_text(list[i].as_str(), app_id)
        };
        if hit {
            return true;
        }
        i = i + 1;
    }
    false
}
} // verus!
