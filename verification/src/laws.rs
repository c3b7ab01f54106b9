//! The laws of overlay resolution.
//!
//! The scan fold of [`crate::scan`] is characterized pointwise, one filename
//! at a time: the last entry of the stack that takes effect for a name
//! decides its fate — a regular file leaves its path, a tombstone leaves
//! nothing. From that characterization follow the precedence, masking and
//! filter laws stated here as public proof functions.

use crate::entry::accepted;
use crate::entry::is_hidden;
use crate::entry::EntryKind;
use crate::entry::EntryView;
use crate::order::lex_lt;
use crate::overlay::lemma_sorted_canonical;
use crate::overlay::ResolvedOverlay;
use crate::scan::apply_dirs;
use crate::scan::apply_entries;
use crate::scan::apply_entry;
use crate::scan::scan_spec;
use vstd::prelude::*;

verus! {

/// The value a mapping holds for a name, if any.
pub open spec fn map_at(m: Map<Seq<char>, Seq<char>>, n: Seq<char>) -> Option<Seq<char>> {
    if m.contains_key(n) {
        Some(m[n])
    } else {
        None
    }
}

/// An entry takes effect for name `n` when it bears that name, passes the
/// filters, and is a regular file or a tombstone.
pub open spec fn effective(
    e: EntryView,
    n: Seq<char>,
    allow_hidden: bool,
    exts: Option<Seq<Seq<char>>>,
) -> bool {
    e.name == n && accepted(n, allow_hidden, exts) && e.kind != EntryKind::Other
}

/// What one entry leaves for name `n`, given what was there before it.
pub open spec fn entry_outcome(
    prev: Option<Seq<char>>,
    e: EntryView,
    n: Seq<char>,
    allow_hidden: bool,
    exts: Option<Seq<Seq<char>>>,
) -> Option<Seq<char>> {
    if effective(e, n, allow_hidden, exts) {
        if e.kind == EntryKind::RegularFile {
            Some(e.path)
        } else {
            None
        }
    } else {
        prev
    }
}

/// What a directory's entries leave for name `n`.
pub open spec fn resolve_entries(
    prev: Option<Seq<char>>,
    es: Seq<EntryView>,
    n: Seq<char>,
    allow_hidden: bool,
    exts: Option<Seq<Seq<char>>>,
) -> Option<Seq<char>>
    decreases es.len(),
{
    if es.len() == 0 {
        prev
    } else {
        entry_outcome(
            resolve_entries(prev, es.drop_last(), n, allow_hidden, exts),
            es.last(),
            n,
            allow_hidden,
            exts,
        )
    }
}

/// What one directory leaves for name `n`; an unreadable one changes nothing.
pub open spec fn resolve_listing(
    prev: Option<Seq<char>>,
    d: Option<Seq<EntryView>>,
    n: Seq<char>,
    allow_hidden: bool,
    exts: Option<Seq<Seq<char>>>,
) -> Option<Seq<char>> {
    match d {
        Some(es) => resolve_entries(prev, es, n, allow_hidden, exts),
        None => prev,
    }
}

/// What the whole stack leaves for name `n`.
pub open spec fn resolve_dirs(
    prev: Option<Seq<char>>,
    ds: Seq<Option<Seq<EntryView>>>,
    n: Seq<char>,
    allow_hidden: bool,
    exts: Option<Seq<Seq<char>>>,
) -> Option<Seq<char>>
    decreases ds.len(),
{
    if ds.len() == 0 {
        prev
    } else {
        resolve_listing(
            resolve_dirs(prev, ds.drop_last(), n, allow_hidden, exts),
            ds.last(),
            n,
            allow_hidden,
            exts,
        )
    }
}

/// The entries a listing contributed, none for an unreadable directory.
pub open spec fn listing_entries(d: Option<Seq<EntryView>>) -> Seq<EntryView> {
    match d {
        Some(es) => es,
        None => Seq::empty(),
    }
}

/// A directory without any entry that takes effect for name `n`.
pub open spec fn listing_inert(
    d: Option<Seq<EntryView>>,
    n: Seq<char>,
    allow_hidden: bool,
    exts: Option<Seq<Seq<char>>>,
) -> bool {
    forall|t: int|
        0 <= t < listing_entries(d).len() ==> !effective(
            listing_entries(d)[t],
            n,
            allow_hidden,
            exts,
        )
}

proof fn lemma_entries_pointwise(
    m: Map<Seq<char>, Seq<char>>,
    es: Seq<EntryView>,
    n: Seq<char>,
    allow_hidden: bool,
    exts: Option<Seq<Seq<char>>>,
)
    ensures
        map_at(apply_entries(m, es, allow_hidden, exts), n) == resolve_entries(
            map_at(m, n),
            es,
            n,
            allow_hidden,
            exts,
        ),
    decreases es.len(),
{
    if es.len() > 0 {
        lemma_entries_pointwise(m, es.drop_last(), n, allow_hidden, exts);
        let m1 = apply_entries(m, es.drop_last(), allow_hidden, exts);
        let e = es.last();
        assert(map_at(apply_entry(m1, e, allow_hidden, exts), n) == entry_outcome(
            map_at(m1, n),
            e,
            n,
            allow_hidden,
            exts,
        ));
    }
}

proof fn lemma_dirs_pointwise(
    m: Map<Seq<char>, Seq<char>>,
    ds: Seq<Option<Seq<EntryView>>>,
    n: Seq<char>,
    allow_hidden: bool,
    exts: Option<Seq<Seq<char>>>,
)
    ensures
        map_at(apply_dirs(m, ds, allow_hidden, exts), n) == resolve_dirs(
            map_at(m, n),
            ds,
            n,
            allow_hidden,
            exts,
        ),
    decreases ds.len(),
{
    if ds.len() > 0 {
        lemma_dirs_pointwise(m, ds.drop_last(), n, allow_hidden, exts);
        let m1 = apply_dirs(m, ds.drop_last(), allow_hidden, exts);
        match ds.last() {
            Some(es) => {
                lemma_entries_pointwise(m1, es, n, allow_hidden, exts);
            },
            None => {},
        }
    }
}

/// Pointwise characterization of the scan: for each filename, the resolved
/// mapping holds exactly what the last entry taking effect for it left
/// behind.
pub proof fn lemma_scan_pointwise(
    ds: Seq<Option<Seq<EntryView>>>,
    allow_hidden: bool,
    exts: Option<Seq<Seq<char>>>,
    n: Seq<char>,
)
    ensures
        map_at(scan_spec(ds, allow_hidden, exts), n) == resolve_dirs(
            None,
            ds,
            n,
            allow_hidden,
            exts,
        ),
{
    lemma_dirs_pointwise(Map::empty(), ds, n, allow_hidden, exts);
    assert(map_at(Map::empty(), n) is None);
}

proof fn lemma_resolve_entries_inert(
    prev: Option<Seq<char>>,
    es: Seq<EntryView>,
    n: Seq<char>,
    allow_hidden: bool,
    exts: Option<Seq<Seq<char>>>,
)
    requires
        forall|t: int| 0 <= t < es.len() ==> !effective(es[t], n, allow_hidden, exts),
    ensures
        resolve_entries(prev, es, n, allow_hidden, exts) == prev,
    decreases es.len(),
{
    if es.len() > 0 {
        assert(forall|t: int| 0 <= t < es.drop_last().len() ==> es.drop_last()[t] == es[t]);
        lemma_resolve_entries_inert(prev, es.drop_last(), n, allow_hidden, exts);
        assert(!effective(es.last(), n, allow_hidden, exts));
    }
}

/// A stack of directories none of which touches `n` leaves `n` as it was.
proof fn lemma_resolve_dirs_inert(
    prev: Option<Seq<char>>,
    ds: Seq<Option<Seq<EntryView>>>,
    n: Seq<char>,
    allow_hidden: bool,
    exts: Option<Seq<Seq<char>>>,
)
    requires
        forall|k: int| 0 <= k < ds.len() ==> listing_inert(ds[k], n, allow_hidden, exts),
    ensures
        resolve_dirs(prev, ds, n, allow_hidden, exts) == prev,
    decreases ds.len(),
{
    if ds.len() > 0 {
        assert(forall|k: int| 0 <= k < ds.drop_last().len() ==> ds.drop_last()[k] == ds[k]);
        lemma_resolve_dirs_inert(prev, ds.drop_last(), n, allow_hidden, exts);
        let p1 = resolve_dirs(prev, ds.drop_last(), n, allow_hidden, exts);
        match ds.last() {
            Some(es) => {
                assert(listing_inert(ds[ds.len() - 1], n, allow_hidden, exts));
                assert forall|t: int| 0 <= t < es.len() implies !effective(
                    es[t],
                    n,
                    allow_hidden,
                    exts,
                ) by {
                    assert(listing_entries(ds[ds.len() - 1]) == es);
                    assert(!effective(listing_entries(ds[ds.len() - 1])[t], n, allow_hidden, exts));
                }
                lemma_resolve_entries_inert(p1, es, n, allow_hidden, exts);
            },
            None => {},
        }
    }
}

proof fn lemma_resolve_dirs_suffix_inert(
    prev: Option<Seq<char>>,
    ds: Seq<Option<Seq<EntryView>>>,
    n: Seq<char>,
    allow_hidden: bool,
    exts: Option<Seq<Seq<char>>>,
    j: int,
)
    requires
        0 <= j < ds.len(),
        forall|k: int| j < k < ds.len() ==> listing_inert(ds[k], n, allow_hidden, exts),
    ensures
        resolve_dirs(prev, ds, n, allow_hidden, exts) == resolve_dirs(
            prev,
            ds.take(j + 1),
            n,
            allow_hidden,
            exts,
        ),
    decreases ds.len(),
{
    if ds.len() == j + 1 {
        assert(ds.take(j + 1) =~= ds);
    } else {
        let p1 = resolve_dirs(prev, ds.drop_last(), n, allow_hidden, exts);
        match ds.last() {
            Some(es) => {
                assert(listing_inert(ds[ds.len() - 1], n, allow_hidden, exts));
                assert forall|t: int| 0 <= t < es.len() implies !effective(
                    es[t],
                    n,
                    allow_hidden,
                    exts,
                ) by {
                    assert(listing_entries(ds[ds.len() - 1]) == es);
                    assert(!effective(listing_entries(ds[ds.len() - 1])[t], n, allow_hidden, exts));
                }
                lemma_resolve_entries_inert(p1, es, n, allow_hidden, exts);
            },
            None => {},
        }
        assert(forall|k: int| 0 <= k < ds.drop_last().len() ==> ds.drop_last()[k] == ds[k]);
        lemma_resolve_dirs_suffix_inert(prev, ds.drop_last(), n, allow_hidden, exts, j);
        assert(ds.drop_last().take(j + 1) =~= ds.take(j + 1));
    }
}

proof fn lemma_resolve_entries_single(
    prev: Option<Seq<char>>,
    es: Seq<EntryView>,
    n: Seq<char>,
    allow_hidden: bool,
    exts: Option<Seq<Seq<char>>>,
    t: int,
)
    requires
        0 <= t < es.len(),
        effective(es[t], n, allow_hidden, exts),
        forall|u: int| 0 <= u < es.len() && u != t ==> !effective(es[u], n, allow_hidden, exts),
    ensures
        resolve_entries(prev, es, n, allow_hidden, exts) == (if es[t].kind
            == EntryKind::RegularFile {
            Some(es[t].path)
        } else {
            None::<Seq<char>>
        }),
    decreases es.len(),
{
    if t == es.len() - 1 {
        assert(es.last() == es[t]);
    } else {
        assert(forall|u: int| 0 <= u < es.drop_last().len() ==> es.drop_last()[u] == es[u]);
        lemma_resolve_entries_single(prev, es.drop_last(), n, allow_hidden, exts, t);
        assert(!effective(es.last(), n, allow_hidden, exts));
    }
}

/// Precedence: when directory `j` holds exactly one entry taking effect for
/// filename `n`, a regular file, and no higher-precedence directory holds any
/// entry taking effect for `n`, the resolved mapping gives `n` the path of
/// that entry — whatever any lower-precedence directory contributed.
pub proof fn lemma_precedence(
    ds: Seq<Option<Seq<EntryView>>>,
    allow_hidden: bool,
    exts: Option<Seq<Seq<char>>>,
    n: Seq<char>,
    j: int,
    t: int,
)
    requires
        0 <= j < ds.len(),
        ds[j] is Some,
        0 <= t < listing_entries(ds[j]).len(),
        listing_entries(ds[j])[t].kind == EntryKind::RegularFile,
        effective(listing_entries(ds[j])[t], n, allow_hidden, exts),
        forall|u: int|
            0 <= u < listing_entries(ds[j]).len() && u != t ==> !effective(
                listing_entries(ds[j])[u],
                n,
                allow_hidden,
                exts,
            ),
        forall|k: int| j < k < ds.len() ==> listing_inert(ds[k], n, allow_hidden, exts),
    ensures
        scan_spec(ds, allow_hidden, exts).contains_key(n),
        scan_spec(ds, allow_hidden, exts)[n] == listing_entries(ds[j])[t].path,
{
    lemma_scan_pointwise(ds, allow_hidden, exts, n);
    lemma_resolve_dirs_suffix_inert(None, ds, n, allow_hidden, exts, j);
    let dsj = ds.take(j + 1);
    assert(dsj.last() == ds[j]);
    let p1 = resolve_dirs(None, dsj.drop_last(), n, allow_hidden, exts);
    lemma_resolve_entries_single(p1, listing_entries(ds[j]), n, allow_hidden, exts, t);
}

/// Masking: a tombstone in directory `j` deletes filename `n` from the
/// result, even when a lower-precedence directory `i` contributed a regular
/// file for it, as long as no higher-precedence directory touches `n` again.
pub proof fn lemma_masking(
    ds: Seq<Option<Seq<EntryView>>>,
    allow_hidden: bool,
    exts: Option<Seq<Seq<char>>>,
    n: Seq<char>,
    i: int,
    ti: int,
    j: int,
    tj: int,
)
    requires
        0 <= i < j < ds.len(),
        ds[i] is Some,
        0 <= ti < listing_entries(ds[i]).len(),
        listing_entries(ds[i])[ti].kind == EntryKind::RegularFile,
        effective(listing_entries(ds[i])[ti], n, allow_hidden, exts),
        ds[j] is Some,
        0 <= tj < listing_entries(ds[j]).len(),
        listing_entries(ds[j])[tj].kind == EntryKind::NullLink,
        effective(listing_entries(ds[j])[tj], n, allow_hidden, exts),
        forall|u: int|
            0 <= u < listing_entries(ds[j]).len() && u != tj ==> !effective(
                listing_entries(ds[j])[u],
                n,
                allow_hidden,
                exts,
            ),
        forall|k: int| j < k < ds.len() ==> listing_inert(ds[k], n, allow_hidden, exts),
    ensures
        !scan_spec(ds, allow_hidden, exts).contains_key(n),
{
    lemma_scan_pointwise(ds, allow_hidden, exts, n);
    lemma_resolve_dirs_suffix_inert(None, ds, n, allow_hidden, exts, j);
    let dsj = ds.take(j + 1);
    assert(dsj.last() == ds[j]);
    let p1 = resolve_dirs(None, dsj.drop_last(), n, allow_hidden, exts);
    lemma_resolve_entries_single(p1, listing_entries(ds[j]), n, allow_hidden, exts, tj);
}

/// Masking then restoring: after a tombstone in directory `j`, a regular file
/// for the same filename in a still-later directory `k` wins again.
pub proof fn lemma_masking_restored(
    ds: Seq<Option<Seq<EntryView>>>,
    allow_hidden: bool,
    exts: Option<Seq<Seq<char>>>,
    n: Seq<char>,
    j: int,
    tj: int,
    k: int,
    tk: int,
)
    requires
        0 <= j < k < ds.len(),
        ds[j] is Some,
        0 <= tj < listing_entries(ds[j]).len(),
        listing_entries(ds[j])[tj].kind == EntryKind::NullLink,
        effective(listing_entries(ds[j])[tj], n, allow_hidden, exts),
        ds[k] is Some,
        0 <= tk < listing_entries(ds[k]).len(),
        listing_entries(ds[k])[tk].kind == EntryKind::RegularFile,
        effective(listing_entries(ds[k])[tk], n, allow_hidden, exts),
        forall|u: int|
            0 <= u < listing_entries(ds[k]).len() && u != tk ==> !effective(
                listing_entries(ds[k])[u],
                n,
                allow_hidden,
                exts,
            ),
        forall|l: int| k < l < ds.len() ==> listing_inert(ds[l], n, allow_hidden, exts),
    ensures
        scan_spec(ds, allow_hidden, exts).contains_key(n),
        scan_spec(ds, allow_hidden, exts)[n] == listing_entries(ds[k])[tk].path,
{
    lemma_precedence(ds, allow_hidden, exts, n, k, tk);
}

proof fn lemma_resolve_entries_allow_hidden(
    prev: Option<Seq<char>>,
    es: Seq<EntryView>,
    n: Seq<char>,
    exts: Option<Seq<Seq<char>>>,
)
    requires
        !is_hidden(n),
    ensures
        resolve_entries(prev, es, n, false, exts) == resolve_entries(prev, es, n, true, exts),
    decreases es.len(),
{
    if es.len() > 0 {
        lemma_resolve_entries_allow_hidden(prev, es.drop_last(), n, exts);
    }
}

proof fn lemma_resolve_dirs_allow_hidden(
    prev: Option<Seq<char>>,
    ds: Seq<Option<Seq<EntryView>>>,
    n: Seq<char>,
    exts: Option<Seq<Seq<char>>>,
)
    requires
        !is_hidden(n),
    ensures
        resolve_dirs(prev, ds, n, false, exts) == resolve_dirs(prev, ds, n, true, exts),
    decreases ds.len(),
{
    if ds.len() > 0 {
        lemma_resolve_dirs_allow_hidden(prev, ds.drop_last(), n, exts);
        let p1 = resolve_dirs(prev, ds.drop_last(), n, false, exts);
        match ds.last() {
            Some(es) => {
                lemma_resolve_entries_allow_hidden(p1, es, n, exts);
            },
            None => {},
        }
    }
}

/// Disallowing hidden files only removes entries: everything resolved with
/// `allow_hidden = false` is resolved identically with `allow_hidden = true`.
pub proof fn lemma_hidden_filter_monotonic(
    ds: Seq<Option<Seq<EntryView>>>,
    exts: Option<Seq<Seq<char>>>,
    n: Seq<char>,
)
    ensures
        scan_spec(ds, false, exts).contains_key(n) ==> scan_spec(ds, true, exts).contains_key(n)
            && scan_spec(ds, true, exts)[n] == scan_spec(ds, false, exts)[n],
{
    lemma_scan_pointwise(ds, false, exts, n);
    lemma_scan_pointwise(ds, true, exts, n);
    if scan_spec(ds, false, exts).contains_key(n) {
        if is_hidden(n) {
            assert(forall|k: int| 0 <= k < ds.len() ==> listing_inert(ds[k], n, false, exts));
            lemma_resolve_dirs_inert(None, ds, n, false, exts);
            assert(false);
        } else {
            lemma_resolve_dirs_allow_hidden(None, ds, n, exts);
        }
    }
}

/// Only filenames passing the filters ever appear in the resolved mapping;
/// in particular, under an extension allow-list, only filenames with a listed
/// extension.
pub proof fn lemma_only_accepted(
    ds: Seq<Option<Seq<EntryView>>>,
    allow_hidden: bool,
    exts: Option<Seq<Seq<char>>>,
    n: Seq<char>,
)
    ensures
        scan_spec(ds, allow_hidden, exts).contains_key(n) ==> accepted(n, allow_hidden, exts),
{
    lemma_scan_pointwise(ds, allow_hidden, exts, n);
    if scan_spec(ds, allow_hidden, exts).contains_key(n) && !accepted(n, allow_hidden, exts) {
        assert(forall|k: int| 0 <= k < ds.len() ==> listing_inert(ds[k], n, allow_hidden, exts));
        lemma_resolve_dirs_inert(None, ds, n, allow_hidden, exts);
        assert(false);
    }
}

/// Entry `t` of directory `k` is a regular file taking effect for name `n`
/// with path `p`.
pub open spec fn regular_source(
    ds: Seq<Option<Seq<EntryView>>>,
    n: Seq<char>,
    allow_hidden: bool,
    exts: Option<Seq<Seq<char>>>,
    k: int,
    t: int,
    p: Seq<char>,
) -> bool {
    &&& 0 <= k < ds.len()
    &&& 0 <= t < listing_entries(ds[k]).len()
    &&& effective(listing_entries(ds[k])[t], n, allow_hidden, exts)
    &&& listing_entries(ds[k])[t].kind == EntryKind::RegularFile
    &&& listing_entries(ds[k])[t].path == p
}

proof fn lemma_resolve_entries_source(
    prev: Option<Seq<char>>,
    es: Seq<EntryView>,
    n: Seq<char>,
    allow_hidden: bool,
    exts: Option<Seq<Seq<char>>>,
    p: Seq<char>,
)
    requires
        resolve_entries(prev, es, n, allow_hidden, exts) == Some(p),
    ensures
        (exists|t: int|
            0 <= t < es.len() && effective(es[t], n, allow_hidden, exts) && es[t].kind
                == EntryKind::RegularFile && es[t].path == p) || prev == Some(p),
    decreases es.len(),
{
    if es.len() > 0 {
        let e = es.last();
        if effective(e, n, allow_hidden, exts) {
            assert(es[es.len() - 1] == e);
        } else {
            lemma_resolve_entries_source(prev, es.drop_last(), n, allow_hidden, exts, p);
            if exists|t: int|
                0 <= t < es.drop_last().len() && effective(es.drop_last()[t], n, allow_hidden, exts)
                    && es.drop_last()[t].kind == EntryKind::RegularFile && es.drop_last()[t].path
                    == p {
                let t = choose|t: int|
                    0 <= t < es.drop_last().len() && effective(
                        es.drop_last()[t],
                        n,
                        allow_hidden,
                        exts,
                    ) && es.drop_last()[t].kind == EntryKind::RegularFile && es.drop_last()[t].path
                        == p;
                assert(es.drop_last()[t] == es[t]);
            }
        }
    }
}

proof fn lemma_resolve_dirs_source(
    prev: Option<Seq<char>>,
    ds: Seq<Option<Seq<EntryView>>>,
    n: Seq<char>,
    allow_hidden: bool,
    exts: Option<Seq<Seq<char>>>,
    p: Seq<char>,
)
    requires
        resolve_dirs(prev, ds, n, allow_hidden, exts) == Some(p),
    ensures
        (exists|k: int, t: int| regular_source(ds, n, allow_hidden, exts, k, t, p)) || prev == Some(
            p,
        ),
    decreases ds.len(),
{
    if ds.len() > 0 {
        let p1 = resolve_dirs(prev, ds.drop_last(), n, allow_hidden, exts);
        let mut from_last: bool = false;
        match ds.last() {
            Some(es) => {
                lemma_resolve_entries_source(p1, es, n, allow_hidden, exts, p);
                if exists|t: int|
                    0 <= t < es.len() && effective(es[t], n, allow_hidden, exts) && es[t].kind
                        == EntryKind::RegularFile && es[t].path == p {
                    let t = choose|t: int|
                        0 <= t < es.len() && effective(es[t], n, allow_hidden, exts) && es[t].kind
                            == EntryKind::RegularFile && es[t].path == p;
                    assert(listing_entries(ds[ds.len() - 1]) == es);
                    assert(regular_source(ds, n, allow_hidden, exts, ds.len() - 1, t, p));
                    from_last = true;
                }
            },
            None => {},
        }
        if !from_last {
            lemma_resolve_dirs_source(prev, ds.drop_last(), n, allow_hidden, exts, p);
            if exists|k: int, t: int| regular_source(ds.drop_last(), n, allow_hidden, exts, k, t, p) {
                let (k, t) = choose|k: int, t: int|
                    regular_source(ds.drop_last(), n, allow_hidden, exts, k, t, p);
                assert(ds.drop_last()[k] == ds[k]);
                assert(regular_source(ds, n, allow_hidden, exts, k, t, p));
            }
        }
    }
}

/// Only real files survive: every path in the resolved mapping is the path of
/// a regular-file entry of the stack that takes effect for its filename —
/// never of a tombstone or of anything else.
pub proof fn lemma_value_from_regular(
    ds: Seq<Option<Seq<EntryView>>>,
    allow_hidden: bool,
    exts: Option<Seq<Seq<char>>>,
    n: Seq<char>,
)
    requires
        scan_spec(ds, allow_hidden, exts).contains_key(n),
    ensures
        exists|k: int, t: int|
            regular_source(
                ds,
                n,
                allow_hidden,
                exts,
                k,
                t,
                scan_spec(ds, allow_hidden, exts)[n],
            ),
{
    lemma_scan_pointwise(ds, allow_hidden, exts, n);
    lemma_resolve_dirs_source(
        None,
        ds,
        n,
        allow_hidden,
        exts,
        scan_spec(ds, allow_hidden, exts)[n],
    );
}

/// Determinism: resolving the same listings twice yields identical overlays —
/// same filenames, same paths, same iteration order — because sortedness
/// makes the representation of the resolved mapping canonical.
pub proof fn lemma_resolve_deterministic(
    a: &ResolvedOverlay,
    b: &ResolvedOverlay,
    ds: Seq<Option<Seq<EntryView>>>,
    allow_hidden: bool,
    exts: Option<Seq<Seq<char>>>,
)
    requires
        a.wf(),
        b.wf(),
        a.as_map() == scan_spec(ds, allow_hidden, exts),
        b.as_map() == scan_spec(ds, allow_hidden, exts),
    ensures
        a@ == b@,
{
    lemma_sorted_canonical(a@, b@);
}

/// Ordering: iterating a well-formed overlay yields filenames in strictly
/// ascending lexicographic order.
pub proof fn lemma_iteration_ordered(r: &ResolvedOverlay, i: int, j: int)
    requires
        r.wf(),
        0 <= i < j < r@.len(),
    ensures
        lex_lt(r@[i].0, r@[j].0),
{
}

} // verus!
