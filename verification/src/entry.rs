//! Directory entries as the scanner sees them.
//!
//! The caller enumerates each directory of the stack and hands the scanner a
//! [`DirListing`] per directory: either the classified entries found there, or
//! nothing when the directory could not be read (missing, unreadable, not a
//! directory), which the scan tolerates by skipping it. Classification is
//! total over {regular file, tombstone, other}: a symlink whose target is the
//! null device is a tombstone that deletes a name, and anything else that is
//! not a regular file has no effect.
//!
//! This module also defines the two filename filters: hidden names (leading
//! dot) and the extension allow-list, where the extension is the text after
//! the final dot, a dot in first position not counting as one.

use vstd::prelude::*;

verus! {

/// What a directory entry designates, as far as the scan cares.
#[derive(Clone, Copy, Debug, PartialEq, Eq, Structural)]
pub enum EntryKind {
    /// A regular file: inserts or overwrites the mapping for its name.
    RegularFile,
    /// A symlink to the null device: deletes the mapping for its name.
    NullLink,
    /// Anything else (directory, other symlink, special file): no effect.
    Other,
}

/// One classified directory entry: its base filename, the full path of the
/// entry, and what it designates.
pub struct DirEntry {
    pub name: String,
    pub path: String,
    pub kind: EntryKind,
}

/// The mathematical image of a [`DirEntry`].
pub struct EntryView {
    pub name: Seq<char>,
    pub path: Seq<char>,
    pub kind: EntryKind,
}

impl View for DirEntry {
    type V = EntryView;

    open spec fn view(&self) -> EntryView {
        EntryView { name: self.name@, path: self.path@, kind: self.kind }
    }
}

/// What one directory of the stack contributed: its classified entries, or
/// `None` when the directory could not be enumerated at all.
pub struct DirListing {
    pub entries: Option<Vec<DirEntry>>,
}

impl View for DirListing {
    type V = Option<Seq<EntryView>>;

    open spec fn view(&self) -> Option<Seq<EntryView>> {
        match self.entries {
            Some(es) => Some(es@.map_values(|e: DirEntry| e@)),
            None => None,
        }
    }
}

/// A filename is hidden when it starts with a dot.
pub open spec fn is_hidden(name: Seq<char>) -> bool {
    name.len() > 0 && name[0] == '.'
}

/// Position of the last dot of `name` that is not in first position, if any:
/// the character right after it starts the extension.
pub open spec fn last_dot_pos(name: Seq<char>) -> Option<int>
    decreases name.len(),
{
    if name.len() <= 1 {
        None
    } else if name[name.len() - 1] == '.' {
        Some(name.len() - 1)
    } else {
        last_dot_pos(name.drop_last())
    }
}

/// The extension of a filename: the text after the final dot. A name without
/// a dot has none, and neither has a hidden name whose only dot is the
/// leading one.
pub open spec fn ext_of(name: Seq<char>) -> Option<Seq<char>> {
    match last_dot_pos(name) {
        Some(p) => Some(name.skip(p + 1)),
        None => None,
    }
}

/// Whether a filename passes the scan filters: hidden names only when allowed,
/// and, under an extension allow-list, only names whose extension is listed.
pub open spec fn accepted(
    name: Seq<char>,
    allow_hidden: bool,
    exts: Option<Seq<Seq<char>>>,
) -> bool {
    &&& allow_hidden || !is_hidden(name)
    &&& match exts {
        None => true,
        Some(es) => match ext_of(name) {
            Some(x) => es.contains(x),
            None => false,
        },
    }
}

/// The extension allow-list as the contracts see it.
pub open spec fn exts_view(allowed: Option<&Vec<String>>) -> Option<Seq<Seq<char>>> {
    match allowed {
        Some(es) => Some(es.deep_view()),
        None => None,
    }
}

/// Extracts the extension of a filename, as [`ext_of`] defines it.
pub fn extension_of(name: &str) -> (r: Option<String>)
    ensures
        match r {
            Some(x) => ext_of(name@) == Some(x@),
            None => ext_of(name@) is None,
        },
{
    let len = name.unicode_len();
    let mut cur: usize = len;
    proof {
        assert(name@.take(len as int) =~= name@);
    }
    loop
        invariant
            1 <= cur <= len || (cur == len && len == 0),
            len == name@.len(),
            last_dot_pos(name@) == last_dot_pos(name@.take(cur as int)),
        decreases cur,
    {
        if cur <= 1 {
            return None;
        }
        let c = name.get_char(cur - 1);
        if c == '.' {
            let ext = name.substring_char(cur, len);
            proof {
                assert(name@.take(cur as int).len() == cur);
                assert(name@.take(cur as int)[cur - 1] == name@[cur - 1]);
                assert(last_dot_pos(name@) == Some(cur - 1 as int));
                assert(name@.skip(cur as int) =~= name@.subrange(cur as int, len as int));
            }
            return Some(ext.to_owned());
        }
        proof {
            assert(name@.take(cur as int)[cur - 1] == name@[cur - 1]);
            assert(name@.take(cur as int).drop_last() =~= name@.take(cur - 1));
        }
        cur = cur - 1;
    }
}

/// Whether `name` passes the scan filters, executably.
pub fn accepts(name: &str, allow_hidden: bool, allowed: Option<&Vec<String>>) -> (r: bool)
    ensures
        r == accepted(name@, allow_hidden, exts_view(allowed)),
{
    if !allow_hidden && name.unicode_len() > 0 && name.get_char(0) == '.' {
        return false;
    }
    match allowed {
        None => true,
        Some(es) => match extension_of(name) {
            None => false,
            Some(x) => contains_string(es, x.as_str()),
        },
    }
}

/// Whether some element of `es` equals `x`.
fn contains_string(es: &Vec<String>, x: &str) -> (r: bool)
    ensures
        r == es.deep_view().contains(x@),
{
    let mut i: usize = 0;
    loop
        invariant
            i <= es.len(),
            forall|j: int| 0 <= j < i ==> es.deep_view()[j] != x@,
        decreases es.len() - i,
    {
        if i >= es.len() {
            proof {
                assert(es.deep_view().len() == es@.len());
            }
            return false;
        }
        if crate::order::str_eq(es[i].as_str(), x) {
            proof {
                assert(es.deep_view()[i as int] == es@[i as int]@);
            }
            return true;
        }
        proof {
            assert(es.deep_view()[i as int] == es@[i as int]@);
        }
        i = i + 1;
    }
}

} // verus!
