//! Decisions about the Linux desktop session that the window code and the
//! AppImage start-up take from environment variables.
use vstd::prelude::*;
use crate::text::string_equals;

verus! {

/// The value of an optional environment variable equals `expected`.
pub open spec fn var_is(value: Option<String>, expected: Seq<char>) -> bool {
    match value {
        Some(v) => v@ == expected,
        None => false,
    }
}

fn var_equals(value: &Option<String>, expected: &str) -> (b: bool)
    ensures
        b == var_is(*value, expected@),
{
    match value {
        Some(v) => string_equals(v.as_str(), expected),
        None => false,
    }
}

/// A Wayland session: `WAYLAND_DISPLAY` is set, or `XDG_SESSION_TYPE` is
/// `wayland`.
pub fn is_wayland_session(wayland_display_set: bool, xdg_session_type: &Option<String>) -> (b: bool)
    ensures
        b == (wayland_display_set || var_is(*xdg_session_type, "wayland"@)),
{
    wayland_display_set || var_equals(xdg_session_type, "wayland")
}

/// Whether the settings window's decorations are refreshed when it gains the
/// focus: in a Wayland session that GTK does not run through X11
/// (`GDK_BACKEND=x11`).
pub fn should_refresh_decorations(wayland_session: bool, gdk_backend: &Option<String>) -> (b: bool)
    ensures
        b == (wayland_session && !var_is(*gdk_backend, "x11"@)),
{
    wayland_session && !var_equals(gdk_backend, "x11")
}

/// Whether a Linux AppImage restarts itself with the system's WebKitGTK: in
/// a Wayland session, when it runs as an AppImage and has not restarted
/// already.
pub fn should_relaunch_with_system_webkit(wayland_session: bool, appimage_set: bool, relaunched_set: bool) -> (b: bool)
    ensures
        b == (wayland_session && appimage_set && !relaunched_set),
{
    wayland_session && appimage_set && !relaunched_set
}

/// A path as its components (`/`, `.`, `..` or a name), each as its bytes.
pub open spec fn path_view(p: Vec<Vec<u8>>) -> Seq<Seq<u8>> {
    p@.map_values(|c: Vec<u8>| c@)
}

/// The component views of a list of paths.
pub open spec fn paths_view(ps: Seq<Vec<Vec<u8>>>) -> Seq<Seq<Seq<u8>>> {
    ps.map_values(|p: Vec<Vec<u8>>| path_view(p))
}

/// The path at `i` of the candidates (the current library directories, the
/// first `current_len` of them, then the system ones) is taken: a system
/// directory always, a current one when it does not lie inside `app_dir`.
pub open spec fn search_candidate(all: Seq<Seq<Seq<u8>>>, current_len: int, app_dir: Seq<Seq<u8>>, i: int) -> bool {
    i >= current_len || !app_dir.is_prefix_of(all[i])
}

/// The path at `i` stays on the library search path: it is taken, and no
/// earlier taken path is the same.
pub open spec fn stays_on_search_path(all: Seq<Seq<Seq<u8>>>, current_len: int, app_dir: Seq<Seq<u8>>, i: int) -> bool {
    &&& search_candidate(all, current_len, app_dir, i)
    &&& forall|j: int| 0 <= j < i && #[trigger] search_candidate(all, current_len, app_dir, j) ==> all[j] != all[i]
}

fn bytes_equal(a: &Vec<u8>, b: &Vec<u8>) -> (r: bool)
    ensures
        r == (a@ == b@),
{
    if a.len() != b.len() {
        return false;
    }
    let mut i: usize = 0;
    while i < a.len()
        invariant
            a@.len() == b@.len(),
            i <= a@.len(),
            forall|j: int| 0 <= j < i ==> a@[j] == b@[j],
        decreases a@.len() - i,
    {
        if a[i] != b[i] {
            return false;
        }
        i = i + 1;
    }
    assert(a@ =~= b@);
    true
}

/// Whether the first `n` components of `a` and `b` are the same.
fn components_equal(a: &Vec<Vec<u8>>, b: &Vec<Vec<u8>>, n: usize) -> (r: bool)
    requires
        n <= a@.len(),
        n <= b@.len(),
    ensures
        r == (path_view(*a).take(n as int) == path_view(*b).take(n as int)),
{
    let ghost va = path_view(*a);
    let ghost vb = path_view(*b);
    let mut i: usize = 0;
    while i < n
        invariant
            n <= a@.len(),
            n <= b@.len(),
            va == path_view(*a),
            vb == path_view(*b),
            i <= n,
            forall|j: int| 0 <= j < i ==> va[j] == vb[j],
        decreases n - i,
    {
        if !bytes_equal(&a[i], &b[i]) {
            assert(va.take(n as int)[i as int] != vb.take(n as int)[i as int]);
            return false;
        }
        i = i + 1;
    }
    assert(va.take(n as int) =~= vb.take(n as int));
    true
}

/// Whether two paths have the same components.
fn same_path(a: &Vec<Vec<u8>>, b: &Vec<Vec<u8>>) -> (r: bool)
    ensures
        r == (path_view(*a) == path_view(*b)),
{
    if a.len() != b.len() {
        return false;
    }
    let r = components_equal(a, b, a.len());
    assert(path_view(*a).take(a@.len() as int) =~= path_view(*a));
    assert(path_view(*b).take(b@.len() as int) =~= path_view(*b));
    r
}

/// Whether `p` lies inside `base`: its components start with those of `base`.
fn path_starts_with(p: &Vec<Vec<u8>>, base: &Vec<Vec<u8>>) -> (r: bool)
    ensures
        r == path_view(*base).is_prefix_of(path_view(*p)),
{
    if base.len() > p.len() {
        return false;
    }
    let r = components_equal(p, base, base.len());
    assert(path_view(*base).take(base@.len() as int) =~= path_view(*base));
    r
}

/// After the first `i` candidates, `r` lists in order the positions before
/// `i` that stay, only candidates that are taken, and each taken path so far
/// has its first place among them.
pub open spec fn search_path_after(all: Seq<Seq<Seq<u8>>>, current_len: int, app: Seq<Seq<u8>>, i: int, r: Seq<usize>) -> bool {
    &&& forall|k: int| 0 <= k < r.len() ==> r[k] < i
    &&& forall|k: int, l: int| 0 <= k < l < r.len() ==> r[k] < r[l]
    &&& forall|j: int| 0 <= j < i ==> (stays_on_search_path(all, current_len, app, j) <==> r.contains(j as usize))
    &&& forall|k: int| 0 <= k < r.len() ==> search_candidate(all, current_len, app, #[trigger] r[k] as int)
    &&& forall|j: int| 0 <= j < i && #[trigger] search_candidate(all, current_len, app, j) ==> exists|k: int|
        0 <= k < r.len() && all[#[trigger] r[k] as int] == all[j]
}

/// A candidate that is not taken does not stay.
proof fn lemma_search_path_skip(all: Seq<Seq<Seq<u8>>>, current_len: int, app: Seq<Seq<u8>>, i: int, r: Seq<usize>)
    requires
        0 <= i <= usize::MAX,
        search_path_after(all, current_len, app, i, r),
        !search_candidate(all, current_len, app, i),
    ensures
        search_path_after(all, current_len, app, i + 1, r),
{
    assert(!r.contains(i as usize));
}

/// A taken candidate whose path is already listed does not stay.
proof fn lemma_search_path_repeat(all: Seq<Seq<Seq<u8>>>, current_len: int, app: Seq<Seq<u8>>, i: int, r: Seq<usize>)
    requires
        0 <= i <= usize::MAX,
        search_path_after(all, current_len, app, i, r),
        search_candidate(all, current_len, app, i),
        exists|m: int| 0 <= m < r.len() && all[#[trigger] r[m] as int] == all[i],
    ensures
        search_path_after(all, current_len, app, i + 1, r),
{
    let m = choose|m: int| 0 <= m < r.len() && all[#[trigger] r[m] as int] == all[i];
    assert(search_candidate(all, current_len, app, r[m] as int));
    assert(!stays_on_search_path(all, current_len, app, i));
    assert(!r.contains(i as usize));
}

/// A taken candidate whose path is not listed yet stays, and is listed.
proof fn lemma_search_path_add(all: Seq<Seq<Seq<u8>>>, current_len: int, app: Seq<Seq<u8>>, i: int, r: Seq<usize>)
    requires
        0 <= i <= usize::MAX,
        search_path_after(all, current_len, app, i, r),
        search_candidate(all, current_len, app, i),
        !exists|m: int| 0 <= m < r.len() && all[#[trigger] r[m] as int] == all[i],
    ensures
        search_path_after(all, current_len, app, i + 1, r.push(i as usize)),
{
    let rr = r.push(i as usize);
    assert(stays_on_search_path(all, current_len, app, i)) by {
        assert forall|j: int| 0 <= j < i && #[trigger] search_candidate(all, current_len, app, j) implies all[j]
            != all[i] by {
            if all[j] == all[i] {
                let m = choose|m: int| 0 <= m < r.len() && all[#[trigger] r[m] as int] == all[j];
                assert(all[r[m] as int] == all[i]);
            }
        }
    }
    assert forall|j: int| 0 <= j < i + 1 implies (stays_on_search_path(all, current_len, app, j) <==> rr.contains(
        j as usize,
    )) by {
        if j < i {
            if r.contains(j as usize) {
                let m = choose|m: int| 0 <= m < r.len() && r[m] == j as usize;
                assert(rr[m] == j as usize);
            }
            if rr.contains(j as usize) {
                let m = choose|m: int| 0 <= m < rr.len() && rr[m] == j as usize;
                if m == r.len() {
                    assert(false);
                }
                assert(r[m] == j as usize);
            }
        } else {
            assert(rr[r.len() as int] == i);
        }
    }
    assert forall|j: int| 0 <= j < i + 1 && #[trigger] search_candidate(all, current_len, app, j) implies exists|m: int|
        0 <= m < rr.len() && all[#[trigger] rr[m] as int] == all[j] by {
        if j < i {
            let m = choose|m: int| 0 <= m < r.len() && all[#[trigger] r[m] as int] == all[j];
            assert(rr[m] == r[m]);
        } else {
            assert(rr[r.len() as int] == i);
        }
    }
    assert forall|k: int| 0 <= k < rr.len() implies search_candidate(all, current_len, app, #[trigger] rr[k] as int) by {
        if k < r.len() {
            assert(rr[k] == r[k]);
        }
    }
}

/// The library search path for the relaunch, as the positions in
/// `candidates` of the paths that stay, in order: the current directories
/// (the first `current_len` candidates) that do not lie inside `app_dir`,
/// then the system directories, each path once, at its first place.
pub fn library_search_path(candidates: &Vec<Vec<Vec<u8>>>, current_len: usize, app_dir: &Vec<Vec<u8>>) -> (r: Vec<usize>)
    requires
        current_len <= candidates@.len(),
    ensures
        forall|k: int| 0 <= k < r@.len() ==> r@[k] < candidates@.len(),
        forall|k: int, l: int| 0 <= k < l < r@.len() ==> r@[k] < r@[l],
        forall|i: int| 0 <= i < candidates@.len() ==> (stays_on_search_path(
            paths_view(candidates@),
            current_len as int,
            path_view(*app_dir),
            i,
        ) <==> r@.contains(i as usize)),
{
    let ghost all = paths_view(candidates@);
    let ghost app = path_view(*app_dir);
    let n = candidates.len();
    let mut r: Vec<usize> = Vec::new();
    let mut i: usize = 0;
    while i < n
        invariant
            n == candidates@.len(),
            current_len <= n,
            all == paths_view(candidates@),
            app == path_view(*app_dir),
            i <= n,
            search_path_after(all, current_len as int, app, i as int, r@),
        decreases n - i,
    {
        assert(all[i as int] == path_view(candidates@[i as int]));
        let taken = i >= current_len || !path_starts_with(&candidates[i], app_dir);
        if taken {
            let mut repeat = false;
            let mut k: usize = 0;
            while k < r.len()
                invariant
                    n == candidates@.len(),
                    all == paths_view(candidates@),
                    i < n,
                    k <= r@.len(),
                    forall|m: int| 0 <= m < r@.len() ==> r@[m] < i,
                    repeat == exists|m: int| 0 <= m < k && all[#[trigger] r@[m] as int] == all[i as int],
                decreases r@.len() - k,
            {
                let j = r[k];
                assert(all[j as int] == path_view(candidates@[j as int]));
                if same_path(&candidates[j], &candidates[i]) {
                    repeat = true;
                }
                k = k + 1;
            }
            if repeat {
                proof {
                    lemma_search_path_repeat(all, current_len as int, app, i as int, r@);
                }
            } else {
                proof {
                    lemma_search_path_add(all, current_len as int, app, i as int, r@);
                }
                r.push(i);
            }
        } else {
            proof {
                lemma_search_path_skip(all, current_len as int, app, i as int, r@);
            }
        }
        i = i + 1;
    }
    r
}

} // verus!
