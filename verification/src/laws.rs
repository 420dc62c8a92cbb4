//! The pipeline's guarantees, stated and proved over the plan model: where a
//! file is routed, that every key's directory is planned or already present,
//! and that a second run over an organized root plans nothing.

use vstd::prelude::*;

use crate::ext::{
    base_name_of, files_with_key, group_key_list, key_of, keys_of, lemma_group_members, Group,
};
use crate::plan::{all_renames, group_renames, new_path_of, planned_dirs};
use crate::strutil::{join, last_index_of, lemma_last_index_of_unique, starts_with};

verus! {

/// `p` sits directly at the top level of `root`: below it, with no further
/// separator after the root's own.
pub open spec fn directly_under(p: Seq<char>, root: Seq<char>) -> bool {
    &&& starts_with(p, root + seq!['/'])
    &&& forall|k: int| root.len() + 1 <= k < p.len() ==> p[k] != '/'
}

/// Where the pipeline routes a file: its new path under its own key.
pub open spec fn moved_path(root: Seq<char>, p: Seq<char>) -> Seq<char> {
    new_path_of(root, key_of(p), p)
}

/// Round trip of the rename mapping: a loose file `root/<base>` is routed to
/// `root/<key>/<base>` where the key is the file's own — under the marked
/// subdirectory of its key, with the base name kept unchanged.
pub proof fn lemma_rename_routes_and_keeps_base(root: Seq<char>, p: Seq<char>)
    requires
        directly_under(p, root),
    ensures
        moved_path(root, p) == join(root, key_of(p)) + seq!['/'] + base_name_of(p),
        starts_with(moved_path(root, p), join(root, key_of(p)) + seq!['/']),
{
    let rl = root.len() as int;
    let pl = p.len() as int;
    assert(p.subrange(0, rl + 1) == root + seq!['/']);
    assert(p[rl] == (root + seq!['/'])[rl]);
    lemma_last_index_of_unique(p, '/', rl);
    assert(base_name_of(p) == p.subrange(rl + 1, pl));
    assert(p.subrange(rl, pl) =~= seq!['/'] + p.subrange(rl + 1, pl));
    let moved = moved_path(root, p);
    assert(moved =~= join(root, key_of(p)) + seq!['/'] + base_name_of(p));
    assert((join(root, key_of(p)) + seq!['/']).len() <= moved.len());
    assert(moved.subrange(0, (join(root, key_of(p)) + seq!['/']).len() as int) =~= join(
        root,
        key_of(p),
    ) + seq!['/']);
}

/// A routed file leaves the top level: its new path has a separator past the
/// root's own, so a later scan of the root's top level does not list it.
pub proof fn lemma_moved_file_leaves_top_level(root: Seq<char>, p: Seq<char>)
    requires
        directly_under(p, root),
    ensures
        !directly_under(moved_path(root, p), root),
{
    let rl = root.len() as int;
    let pl = p.len() as int;
    assert(p.subrange(0, rl + 1) == root + seq!['/']);
    assert(p[rl] == (root + seq!['/'])[rl]);
    let key = key_of(p);
    let moved = moved_path(root, p);
    let idx = rl + 1 + key.len() as int;
    assert(moved[idx] == p.subrange(rl, pl)[0]);
    assert(moved[idx] == '/');
    assert(idx < moved.len());
}

/// Idempotence at the plan level: every loose file of a run is routed one
/// level deeper, so a second scan of the root's top level finds no loose
/// files, and the plan computed from an empty file list has no group, no
/// directory to create, and no rename.
pub proof fn lemma_second_run_plans_nothing(
    root: Seq<char>,
    files: Seq<Seq<char>>,
    dirs: Seq<Seq<char>>,
)
    requires
        forall|j: int| 0 <= j < files.len() ==> directly_under(#[trigger] files[j], root),
    ensures
        forall|j: int|
            0 <= j < files.len() ==> !directly_under(
                #[trigger] moved_path(root, files[j]),
                root,
            ),
        keys_of(Seq::<Seq<char>>::empty()) == Seq::<Seq<char>>::empty(),
        planned_dirs(Seq::<Seq<char>>::empty(), root, dirs) == Seq::<Seq<char>>::empty(),
        all_renames(root, Seq::<Group>::empty()) == Seq::<(Seq<char>, Seq<char>)>::empty(),
{
    assert forall|j: int| 0 <= j < files.len() implies !directly_under(
        #[trigger] moved_path(root, files[j]),
        root,
    ) by {
        lemma_moved_file_leaves_top_level(root, files[j]);
    }
}

/// Plan completeness for directories: every key's target `root/<key>` is
/// either a subdirectory the scan already listed or stands in the plan, so
/// once the planned directories are created it exists under the root.
pub proof fn lemma_every_key_directory_planned(
    keys: Seq<Seq<char>>,
    root: Seq<char>,
    dirs: Seq<Seq<char>>,
    i: int,
)
    requires
        0 <= i < keys.len(),
    ensures
        dirs.contains(join(root, keys[i])) || planned_dirs(keys, root, dirs).contains(
            join(root, keys[i]),
        ),
    decreases keys.len(),
{
    let cand = join(root, keys[i]);
    assert(cand != root) by {
        assert(cand.len() > root.len());
    }
    if i == keys.len() - 1 {
        if !dirs.contains(cand) {
            assert(planned_dirs(keys, root, dirs).last() == cand);
        }
    } else {
        assert(keys.drop_last()[i] == keys[i]);
        lemma_every_key_directory_planned(keys.drop_last(), root, dirs, i);
        if !dirs.contains(cand) {
            let rest = planned_dirs(keys.drop_last(), root, dirs);
            let j = choose|j: int| 0 <= j < rest.len() && rest[j] == cand;
            assert(planned_dirs(keys, root, dirs)[j] == cand);
        }
    }
}

/// One planned rename follows the grouping: its old path is one of the
/// listing's files, its new path is that file's own moved path, and the
/// file's key is one of the group keys.
pub open spec fn rename_follows_keys(
    root: Seq<char>,
    files: Seq<Seq<char>>,
    keys: Seq<Seq<char>>,
    pair: (Seq<char>, Seq<char>),
) -> bool {
    &&& files.contains(pair.0)
    &&& pair.1 == moved_path(root, pair.0)
    &&& keys.contains(key_of(pair.0))
}

/// For groups that hold exactly each key's files, every planned rename
/// follows the grouping: it sends one of the listed files to that file's own
/// moved path, under a key the groups carry.
pub proof fn lemma_renames_follow_keys(root: Seq<char>, files: Seq<Seq<char>>, groups: Seq<Group>)
    requires
        forall|i: int|
            0 <= i < groups.len() ==> (#[trigger] groups[i]).files.deep_view() == files_with_key(
                files,
                groups[i].key@,
            ),
    ensures
        forall|idx: int|
            0 <= idx < all_renames(root, groups).len() ==> rename_follows_keys(
                root,
                files,
                group_key_list(groups),
                #[trigger] all_renames(root, groups)[idx],
            ),
    decreases groups.len(),
{
    if groups.len() > 0 {
        let prior = groups.drop_last();
        assert forall|i: int| 0 <= i < prior.len() implies (#[trigger] prior[i]).files.deep_view()
            == files_with_key(files, prior[i].key@) by {
            assert(prior[i] == groups[i]);
        }
        lemma_renames_follow_keys(root, files, prior);
        let k = groups.last().key@;
        lemma_group_members(files, k);
        let pr = all_renames(root, prior);
        let full = all_renames(root, groups);
        assert forall|idx: int| 0 <= idx < full.len() implies rename_follows_keys(
            root,
            files,
            group_key_list(groups),
            #[trigger] full[idx],
        ) by {
            if idx < pr.len() {
                assert(full[idx] == pr[idx]);
                let i = choose|i: int|
                    0 <= i < group_key_list(prior).len() && group_key_list(prior)[i] == key_of(
                        pr[idx].0,
                    );
                assert(group_key_list(groups)[i] == key_of(full[idx].0));
            } else {
                let fs = groups.last().files.deep_view();
                let j = idx - pr.len();
                assert(full[idx] == group_renames(root, k, fs)[j]);
                assert(full[idx] == (fs[j], new_path_of(root, k, fs[j])));
                assert(fs.contains(fs[j]));
                assert(fs == files_with_key(files, k));
                assert(files.contains(fs[j]) && key_of(fs[j]) == k);
                assert(group_key_list(groups)[groups.len() - 1] == key_of(full[idx].0));
            }
        }
    }
}

/// The rename mapping is a function: every new path is derived from the old
/// path alone, so two planned renames of one old path share their new path.
pub proof fn lemma_renames_functional(root: Seq<char>, files: Seq<Seq<char>>, groups: Seq<Group>)
    requires
        forall|i: int|
            0 <= i < groups.len() ==> (#[trigger] groups[i]).files.deep_view() == files_with_key(
                files,
                groups[i].key@,
            ),
    ensures
        forall|a: int, b: int|
            #![trigger all_renames(root, groups)[a], all_renames(root, groups)[b]]
            0 <= a < all_renames(root, groups).len() && 0 <= b < all_renames(root, groups).len()
                && all_renames(root, groups)[a].0 == all_renames(root, groups)[b].0 ==> all_renames(
                root,
                groups,
            )[a].1 == all_renames(root, groups)[b].1,
{
    lemma_renames_follow_keys(root, files, groups);
}

/// One planned rename is sound: it targets `root/<key>/<base>` of its own
/// file, and that parent directory was scanned or stands in the plan.
pub open spec fn rename_sound(
    root: Seq<char>,
    keys: Seq<Seq<char>>,
    dirs: Seq<Seq<char>>,
    pair: (Seq<char>, Seq<char>),
) -> bool {
    let parent = join(root, key_of(pair.0));
    &&& pair.1 == parent + seq!['/'] + base_name_of(pair.0)
    &&& dirs.contains(parent) || planned_dirs(keys, root, dirs).contains(parent)
}

/// Plan soundness: when every listed file lies at the root's top level and
/// the groups hold exactly each key's files, every planned rename sends its
/// file below the directory of the file's own key, and that directory is an
/// existing subdirectory or is itself planned for creation — so the renames
/// only ever target directories that exist once the plan's first phase ran.
pub proof fn lemma_plan_parents_exist(
    root: Seq<char>,
    files: Seq<Seq<char>>,
    groups: Seq<Group>,
    dirs: Seq<Seq<char>>,
)
    requires
        forall|i: int|
            0 <= i < groups.len() ==> (#[trigger] groups[i]).files.deep_view() == files_with_key(
                files,
                groups[i].key@,
            ),
        forall|j: int| 0 <= j < files.len() ==> directly_under(#[trigger] files[j], root),
    ensures
        forall|idx: int|
            0 <= idx < all_renames(root, groups).len() ==> rename_sound(
                root,
                group_key_list(groups),
                dirs,
                #[trigger] all_renames(root, groups)[idx],
            ),
{
    lemma_renames_follow_keys(root, files, groups);
    let keys = group_key_list(groups);
    assert forall|idx: int| 0 <= idx < all_renames(root, groups).len() implies rename_sound(
        root,
        keys,
        dirs,
        #[trigger] all_renames(root, groups)[idx],
    ) by {
        let pair = all_renames(root, groups)[idx];
        let j = choose|j: int| 0 <= j < files.len() && files[j] == pair.0;
        assert(directly_under(pair.0, root));
        lemma_rename_routes_and_keeps_base(root, pair.0);
        let i = choose|i: int| 0 <= i < keys.len() && keys[i] == key_of(pair.0);
        lemma_every_key_directory_planned(keys, root, dirs, i);
    }
}

} // verus!
