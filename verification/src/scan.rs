//! Directory scanner, the computing half: split raw directory entries into
//! subdirectories and files, leaving hidden entries out. Reading the entries
//! from the filesystem is the caller's part; it hands each entry in as a
//! plain name, path and directory flag.

use vstd::prelude::*;
use vstd::string::StrSliceExecFns;

verus! {

/// One directory entry as the filesystem reported it: its bare name, its
/// full path, and whether its type metadata marked it a directory (an entry
/// whose type could not be read is handed in as not-a-directory).
pub struct RawEntry {
    pub name: String,
    pub path: String,
    pub is_dir: bool,
}

/// The listing of one directory: its root and the kept entries, split into
/// subdirectories and files.
pub struct DirEntries {
    pub root: String,
    pub dirs: Vec<String>,
    pub files: Vec<String>,
}

/// A name is hidden when it begins with the hidden-file marker `.`.
pub open spec fn is_hidden(name: Seq<char>) -> bool {
    name.len() > 0 && name[0] == '.'
}

/// The paths of the entries that are kept (not hidden) and whose directory
/// flag equals `want_dir`, in scan order.
pub open spec fn kept_paths(entries: Seq<RawEntry>, want_dir: bool) -> Seq<Seq<char>>
    decreases entries.len(),
{
    if entries.len() == 0 {
        Seq::empty()
    } else {
        let rest = kept_paths(entries.drop_last(), want_dir);
        let e = entries.last();
        if !is_hidden(e.name@) && e.is_dir == want_dir {
            rest.push(e.path@)
        } else {
            rest
        }
    }
}

/// Every kept path comes from a kept entry carrying the matching flag.
proof fn lemma_kept_paths_members(entries: Seq<RawEntry>, want_dir: bool)
    ensures
        forall|p: Seq<char>| #[trigger]
            kept_paths(entries, want_dir).contains(p) ==> exists|i: int|
                0 <= i < entries.len() && entries[i].path@ == p && entries[i].is_dir == want_dir
                    && !is_hidden(entries[i].name@),
    decreases entries.len(),
{
    if entries.len() > 0 {
        lemma_kept_paths_members(entries.drop_last(), want_dir);
        assert forall|p: Seq<char>| #[trigger] kept_paths(entries, want_dir).contains(
            p,
        ) implies exists|i: int|
            0 <= i < entries.len() && entries[i].path@ == p && entries[i].is_dir == want_dir
                && !is_hidden(entries[i].name@) by {
            let kept = kept_paths(entries, want_dir);
            let e = entries.last();
            if !is_hidden(e.name@) && e.is_dir == want_dir && p == e.path@ {
                assert(entries[entries.len() - 1].path@ == p);
            } else {
                let rest = kept_paths(entries.drop_last(), want_dir);
                if !is_hidden(e.name@) && e.is_dir == want_dir {
                    let x = choose|x: int| 0 <= x < kept.len() && kept[x] == p;
                    assert(kept.drop_last() =~= rest);
                    assert(rest[x] == p);
                }
                assert(rest.contains(p));
                let i = choose|i: int|
                    0 <= i < entries.drop_last().len() && entries.drop_last()[i].path@ == p
                        && entries.drop_last()[i].is_dir == want_dir && !is_hidden(
                        entries.drop_last()[i].name@,
                    );
                assert(entries[i].path@ == p && entries[i].is_dir == want_dir && !is_hidden(
                    entries[i].name@,
                ));
            }
        }
    }
}

/// The listing splits the entries: when the scan hands each path in once, no
/// path stands among both the subdirectories and the files.
pub proof fn lemma_listing_disjoint(entries: Seq<RawEntry>)
    requires
        forall|i: int, j: int|
            0 <= i < j < entries.len() ==> entries[i].path@ != entries[j].path@,
    ensures
        forall|p: Seq<char>|
            !(#[trigger] kept_paths(entries, true).contains(p) && kept_paths(
                entries,
                false,
            ).contains(p)),
{
    lemma_kept_paths_members(entries, true);
    lemma_kept_paths_members(entries, false);
    assert forall|p: Seq<char>|
        !(#[trigger] kept_paths(entries, true).contains(p) && kept_paths(
            entries,
            false,
        ).contains(p)) by {
        if kept_paths(entries, true).contains(p) && kept_paths(entries, false).contains(p) {
            let i = choose|i: int|
                0 <= i < entries.len() && entries[i].path@ == p && entries[i].is_dir == true
                    && !is_hidden(entries[i].name@);
            let j = choose|j: int|
                0 <= j < entries.len() && entries[j].path@ == p && entries[j].is_dir == false
                    && !is_hidden(entries[j].name@);
            assert(i != j);
            assert(entries[i].path@ != entries[j].path@);
        }
    }
}

/// Split the scanned entries of `root` into subdirectories and files,
/// leaving every hidden entry out of both.
pub fn classify_entries(root: String, entries: &Vec<RawEntry>) -> (r: DirEntries)
    ensures
        r.root@ == root@,
        r.dirs.deep_view() == kept_paths(entries@, true),
        r.files.deep_view() == kept_paths(entries@, false),
{
    let mut dirs: Vec<String> = Vec::new();
    let mut files: Vec<String> = Vec::new();
    let mut i: usize = 0;
    while i < entries.len()
        invariant
            i <= entries@.len(),
            dirs.deep_view() == kept_paths(entries@.take(i as int), true),
            files.deep_view() == kept_paths(entries@.take(i as int), false),
        decreases entries@.len() - i,
    {
        let e = &entries[i];
        let hidden = e.name.as_str().unicode_len() > 0 && e.name.as_str().get_char(0) == '.';
        assert(hidden == is_hidden(e.name@));
        let ghost prefix = entries@.take(i as int);
        let ghost step = entries@.take(i as int + 1);
        proof {
            assert(step.drop_last() =~= prefix);
            assert(step.last() == entries@[i as int]);
        }
        if !hidden {
            if e.is_dir {
                dirs.push(e.path.clone());
                assert(dirs.deep_view() =~= kept_paths(prefix, true).push(e.path@));
            } else {
                files.push(e.path.clone());
                assert(files.deep_view() =~= kept_paths(prefix, false).push(e.path@));
            }
        }
        i = i + 1;
    }
    proof {
        assert(entries@.take(entries@.len() as int) =~= entries@);
    }
    DirEntries { root, dirs, files }
}

} // verus!
