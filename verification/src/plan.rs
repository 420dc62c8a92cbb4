//! Plan builder: from the extension groups and the scanned listing, compute
//! which key directories must be created and the old-path to new-path rename
//! mapping for every file. Pure computation; applying the plan is the
//! caller's part, directory creation first, renames after.

use vstd::prelude::*;
use vstd::string::StrSliceExecFns;
use vstd::string::StringExecFns;

use crate::ext::{key_of, ExtGroups, Group};
use crate::scan::DirEntries;
use crate::strutil::{contains_string, join, join_path, starts_with, str_starts_with};

verus! {

/// The directories the plan creates: for each key in order, `root/<key>`,
/// kept only when it is not already a scanned subdirectory and not the root
/// itself.
pub open spec fn planned_dirs(keys: Seq<Seq<char>>, root: Seq<char>, dirs: Seq<Seq<char>>) -> Seq<
    Seq<char>,
>
    decreases keys.len(),
{
    if keys.len() == 0 {
        Seq::empty()
    } else {
        let rest = planned_dirs(keys.drop_last(), root, dirs);
        let cand = join(root, keys.last());
        if !dirs.contains(cand) && cand != root {
            rest.push(cand)
        } else {
            rest
        }
    }
}

/// Compute the target directories that do not exist yet, one candidate
/// `root/<key>` per group key, in group order.
pub fn get_dirs_to_create(entries: &DirEntries, groups: &ExtGroups) -> (r: Vec<String>)
    ensures
        r.deep_view() == planned_dirs(groups.keys(), entries.root@, entries.dirs.deep_view()),
{
    let ghost keys = groups.keys();
    let mut r: Vec<String> = Vec::new();
    let mut i: usize = 0;
    while i < groups.groups.len()
        invariant
            i <= groups.groups@.len(),
            keys == groups.keys(),
            r.deep_view() == planned_dirs(
                keys.take(i as int),
                entries.root@,
                entries.dirs.deep_view(),
            ),
        decreases groups.groups@.len() - i,
    {
        let ghost prefix = keys.take(i as int);
        let ghost step = keys.take(i as int + 1);
        proof {
            assert(step.drop_last() =~= prefix);
            assert(step.last() == keys[i as int]);
        }
        let cand = join_path(entries.root.as_str(), groups.groups[i].key.as_str());
        let present = contains_string(&entries.dirs, &cand);
        let degenerate = cand.eq(&entries.root);
        if !present && !degenerate {
            let ghost before = r.deep_view();
            r.push(cand);
            assert(r.deep_view() =~= before.push(join(entries.root@, keys[i as int])));
        }
        i = i + 1;
    }
    proof {
        assert(keys.take(groups.groups@.len() as int) =~= keys);
    }
    r
}

/// The new path of a file: a path below the root has the key inserted as a
/// fresh segment directly under the root; any other path is left unchanged.
pub open spec fn new_path_of(root: Seq<char>, key: Seq<char>, p: Seq<char>) -> Seq<char> {
    if starts_with(p, root + seq!['/']) {
        root + seq!['/'] + key + p.subrange(root.len() as int, p.len() as int)
    } else {
        p
    }
}

/// Build the new path of one file under its key's directory.
pub fn new_path(root: &str, key: &str, p: &String) -> (r: String)
    ensures
        r@ == new_path_of(root@, key@, p@),
{
    let mut prefix = String::from_str(root);
    prefix.append("/");
    proof {
        reveal_strlit("/");
        assert("/"@ =~= seq!['/']);
        assert(prefix@ =~= root@ + seq!['/']);
    }
    if str_starts_with(p.as_str(), prefix.as_str()) {
        let rl = root.unicode_len();
        let pl = p.as_str().unicode_len();
        let suffix = p.as_str().substring_char(rl, pl);
        let mut r = String::from_str(root);
        r.append("/");
        r.append(key);
        r.append(suffix);
        proof {
            assert(r@ =~= new_path_of(root@, key@, p@));
        }
        r
    } else {
        p.clone()
    }
}

/// One planned rename: the file's old path and its new path.
pub struct Rename {
    pub from: String,
    pub to: String,
}

/// The pairs a rename listing stands for.
pub open spec fn renames_model(rs: Seq<Rename>) -> Seq<(Seq<char>, Seq<char>)> {
    rs.map_values(|r: Rename| (r.from@, r.to@))
}

/// The renames of one group: each file paired with its new path.
pub open spec fn group_renames(root: Seq<char>, key: Seq<char>, files: Seq<Seq<char>>) -> Seq<
    (Seq<char>, Seq<char>),
> {
    files.map_values(|p: Seq<char>| (p, new_path_of(root, key, p)))
}

/// The renames of all groups, group by group in order.
pub open spec fn all_renames(root: Seq<char>, groups: Seq<Group>) -> Seq<(Seq<char>, Seq<char>)>
    decreases groups.len(),
{
    if groups.len() == 0 {
        Seq::empty()
    } else {
        all_renames(root, groups.drop_last()) + group_renames(
            root,
            groups.last().key@,
            groups.last().files.deep_view(),
        )
    }
}

/// Compute the rename mapping: every grouped file paired with its new path
/// under its key's directory, group by group.
pub fn get_name_pairs(groups: ExtGroups, root: &String) -> (r: Vec<Rename>)
    ensures
        renames_model(r@) == all_renames(root@, groups.groups@),
{
    let mut r: Vec<Rename> = Vec::new();
    let mut gi: usize = 0;
    while gi < groups.groups.len()
        invariant
            gi <= groups.groups@.len(),
            renames_model(r@) == all_renames(root@, groups.groups@.take(gi as int)),
        decreases groups.groups@.len() - gi,
    {
        let ghost gprefix = groups.groups@.take(gi as int);
        let ghost gstep = groups.groups@.take(gi as int + 1);
        proof {
            assert(gstep.drop_last() =~= gprefix);
            assert(gstep.last() == groups.groups@[gi as int]);
        }
        let grp = &groups.groups[gi];
        let ghost gfiles = grp.files.deep_view();
        let mut fi: usize = 0;
        while fi < grp.files.len()
            invariant
                fi <= grp.files@.len(),
                gfiles == grp.files.deep_view(),
                renames_model(r@) == all_renames(root@, groups.groups@.take(gi as int))
                    + group_renames(root@, grp.key@, gfiles.take(fi as int)),
            decreases grp.files@.len() - fi,
        {
            let from = grp.files[fi].clone();
            let to = new_path(root.as_str(), grp.key.as_str(), &grp.files[fi]);
            let ghost before = renames_model(r@);
            r.push(Rename { from, to });
            proof {
                assert(renames_model(r@) =~= before.push(
                    (gfiles[fi as int], new_path_of(root@, grp.key@, gfiles[fi as int])),
                ));
                assert(group_renames(root@, grp.key@, gfiles.take(fi as int + 1))
                    =~= group_renames(root@, grp.key@, gfiles.take(fi as int)).push(
                    (gfiles[fi as int], new_path_of(root@, grp.key@, gfiles[fi as int])),
                ));
            }
            fi = fi + 1;
        }
        proof {
            assert(gfiles.take(grp.files@.len() as int) =~= gfiles);
            assert(renames_model(r@) =~= all_renames(root@, gstep));
        }
        gi = gi + 1;
    }
    proof {
        assert(groups.groups@.take(groups.groups@.len() as int) =~= groups.groups@);
    }
    r
}

} // verus!
