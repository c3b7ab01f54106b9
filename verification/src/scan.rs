//! The overlay scan: a single pass over the directory stack.
//!
//! Directories are folded in precedence order, low to high. Within each
//! readable directory, every entry that passes the filters takes effect on
//! the accumulated mapping: a regular file inserts or overwrites its
//! filename, a null-device symlink deletes it, anything else is skipped. An
//! unreadable directory is skipped whole. The functions here define that fold
//! mathematically and implement it over a [`ResolvedOverlay`].

use crate::entry::accepted;
use crate::entry::accepts;
use crate::entry::exts_view;
use crate::entry::DirEntry;
use crate::entry::DirListing;
use crate::entry::EntryKind;
use crate::entry::EntryView;
use crate::overlay::ResolvedOverlay;
use crate::stack::OverdropConf;
use vstd::prelude::*;

verus! {

/// One directory entry folded into the accumulated mapping.
pub open spec fn apply_entry(
    m: Map<Seq<char>, Seq<char>>,
    e: EntryView,
    allow_hidden: bool,
    exts: Option<Seq<Seq<char>>>,
) -> Map<Seq<char>, Seq<char>> {
    if accepted(e.name, allow_hidden, exts) {
        match e.kind {
            EntryKind::RegularFile => m.insert(e.name, e.path),
            EntryKind::NullLink => m.remove(e.name),
            EntryKind::Other => m,
        }
    } else {
        m
    }
}

/// A directory's entries folded in order into the accumulated mapping.
pub open spec fn apply_entries(
    m: Map<Seq<char>, Seq<char>>,
    es: Seq<EntryView>,
    allow_hidden: bool,
    exts: Option<Seq<Seq<char>>>,
) -> Map<Seq<char>, Seq<char>>
    decreases es.len(),
{
    if es.len() == 0 {
        m
    } else {
        apply_entry(apply_entries(m, es.drop_last(), allow_hidden, exts), es.last(), allow_hidden, exts)
    }
}

/// One directory folded into the accumulated mapping; an unreadable one
/// changes nothing.
pub open spec fn apply_listing(
    m: Map<Seq<char>, Seq<char>>,
    d: Option<Seq<EntryView>>,
    allow_hidden: bool,
    exts: Option<Seq<Seq<char>>>,
) -> Map<Seq<char>, Seq<char>> {
    match d {
        Some(es) => apply_entries(m, es, allow_hidden, exts),
        None => m,
    }
}

/// The directory stack folded in precedence order, low to high.
pub open spec fn apply_dirs(
    m: Map<Seq<char>, Seq<char>>,
    ds: Seq<Option<Seq<EntryView>>>,
    allow_hidden: bool,
    exts: Option<Seq<Seq<char>>>,
) -> Map<Seq<char>, Seq<char>>
    decreases ds.len(),
{
    if ds.len() == 0 {
        m
    } else {
        apply_listing(apply_dirs(m, ds.drop_last(), allow_hidden, exts), ds.last(), allow_hidden, exts)
    }
}

/// The listings as the contracts see them.
pub open spec fn listings_view(ls: Seq<DirListing>) -> Seq<Option<Seq<EntryView>>> {
    ls.map_values(|d: DirListing| d@)
}

/// The resolved mapping for a directory stack: the whole fold, starting from
/// the empty mapping.
pub open spec fn scan_spec(
    ds: Seq<Option<Seq<EntryView>>>,
    allow_hidden: bool,
    exts: Option<Seq<Seq<char>>>,
) -> Map<Seq<char>, Seq<char>> {
    apply_dirs(Map::empty(), ds, allow_hidden, exts)
}

impl OverdropConf {
    /// Resolves the overlay: folds the given per-directory listings — one per
    /// directory of the stack, in stack order, as the caller enumerated them —
    /// into a mapping from filename to winning path, applying the hidden-file
    /// and extension filters to every entry.
    pub fn scan_unique_files(
        &self,
        listings: &Vec<DirListing>,
        allow_hidden: bool,
        allowed_extensions: Option<&Vec<String>>,
    ) -> (r: ResolvedOverlay)
        ensures
            r.wf(),
            r.as_map() == scan_spec(
                listings_view(listings@),
                allow_hidden,
                exts_view(allowed_extensions),
            ),
    {
        let ghost ds = listings_view(listings@);
        let ghost ex = exts_view(allowed_extensions);
        let mut acc = ResolvedOverlay::empty();
        let mut i: usize = 0;
        proof {
            assert(ds.take(0) =~= Seq::<Option<Seq<EntryView>>>::empty());
        }
        while i < listings.len()
            invariant
                i <= listings@.len(),
                ds == listings_view(listings@),
                ds.len() == listings@.len(),
                ex == exts_view(allowed_extensions),
                acc.wf(),
                acc.as_map() == apply_dirs(Map::empty(), ds.take(i as int), allow_hidden, ex),
            decreases listings@.len() - i,
        {
            let listing = &listings[i];
            proof {
                assert(ds[i as int] == listing@);
            }
            match &listing.entries {
                None => {},
                Some(entries) => {
                    let ghost es = entries@.map_values(|e: DirEntry| e@);
                    let ghost m_dir = apply_dirs(Map::empty(), ds.take(i as int), allow_hidden, ex);
                    let mut j: usize = 0;
                    proof {
                        assert(es.take(0) =~= Seq::<EntryView>::empty());
                    }
                    while j < entries.len()
                        invariant
                            j <= entries@.len(),
                            es == entries@.map_values(|e: DirEntry| e@),
                            es.len() == entries@.len(),
                            ex == exts_view(allowed_extensions),
                            acc.wf(),
                            acc.as_map() == apply_entries(m_dir, es.take(j as int), allow_hidden, ex),
                        decreases entries@.len() - j,
                    {
                        let e = &entries[j];
                        proof {
                            assert(es[j as int] == e@);
                        }
                        if accepts(e.name.as_str(), allow_hidden, allowed_extensions) {
                            match e.kind {
                                EntryKind::RegularFile => {
                                    acc.insert_file(e.name.clone(), e.path.clone());
                                },
                                EntryKind::NullLink => {
                                    acc.remove_name(e.name.as_str());
                                },
                                EntryKind::Other => {},
                            }
                        }
                        proof {
                            assert(es.take(j + 1).drop_last() =~= es.take(j as int));
                            assert(es.take(j + 1).last() == es[j as int]);
                        }
                        j = j + 1;
                    }
                    proof {
                        assert(es.take(es.len() as int) =~= es);
                    }
                },
            }
            proof {
                assert(ds.take(i + 1).drop_last() =~= ds.take(i as int));
                assert(ds.take(i + 1).last() == ds[i as int]);
            }
            i = i + 1;
        }
        proof {
            assert(ds.take(ds.len() as int) =~= ds);
        }
        acc
    }
}

} // verus!
