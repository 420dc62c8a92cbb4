//! Extension classifier: derive the normalized extension key of a file path
//! and group a listing's file paths by that key.
//!
//! The key of a path is `_` followed by the lower-cased extension of its base
//! name; a base name without an extension falls under the sentinel key
//! `_no_ext` (the inclusive policy: extension-less files form a group of
//! their own rather than being dropped). The marker prefix keeps generated
//! directory names apart from arbitrary user directory names.

use vstd::prelude::*;
use vstd::string::StrSliceExecFns;
use vstd::string::StringExecFns;

use crate::strutil::{find_last, last_index_of, lemma_last_index_of_properties};

verus! {

/// What `str::to_lowercase` returns for a given character sequence.
pub uninterp spec fn lower_of(s: Seq<char>) -> Seq<char>;

/// Relies on `str::to_lowercase`: the lowercase equivalent of `s`, a function
/// of its characters alone; an empty string stays empty.
#[verifier::external_body]
fn lowercase(s: &str) -> (r: String)
    ensures
        r@ == lower_of(s@),
        s@.len() == 0 ==> r@.len() == 0,
{
    s.to_lowercase()
}

/// The base name of a path: everything after its last separator.
pub open spec fn base_name_of(p: Seq<char>) -> Seq<char> {
    p.subrange(last_index_of(p, '/') + 1, p.len() as int)
}

/// A base name has an extension when a `.` stands after its first character;
/// a name whose only `.` is its first character is a hidden-style name, not
/// a name with an empty extension.
pub open spec fn has_ext(base: Seq<char>) -> bool {
    last_index_of(base, '.') >= 1
}

/// The extension of a base name: everything after its last `.`.
pub open spec fn ext_of(base: Seq<char>) -> Seq<char> {
    base.subrange(last_index_of(base, '.') + 1, base.len() as int)
}

/// The grouping key of a file path: `_` followed by the lower-cased
/// extension, or the sentinel for paths without one.
pub open spec fn key_of(p: Seq<char>) -> Seq<char> {
    let base = base_name_of(p);
    if has_ext(base) {
        seq!['_'] + lower_of(ext_of(base))
    } else {
        "_no_ext"@
    }
}

/// Every key carries the marker: its first character is `_`, so a generated
/// directory name cannot collide with a user directory name that lacks it.
pub proof fn lemma_key_is_marked(p: Seq<char>)
    ensures
        key_of(p).len() >= 1,
        key_of(p)[0] == '_',
{
    reveal_strlit("_no_ext");
}

/// Compute the grouping key of one file path.
pub fn get_ext(f: &str) -> (r: String)
    ensures
        r@ == key_of(f@),
{
    let n = f.unicode_len();
    proof {
        lemma_last_index_of_properties(f@, '/');
    }
    let bstart: usize = match find_last(f, '/') {
        Some(i) => i + 1,
        None => 0,
    };
    let base = f.substring_char(bstart, n);
    assert(base@ == base_name_of(f@));
    proof {
        lemma_last_index_of_properties(base@, '.');
    }
    match find_last(base, '.') {
        Some(d) => {
            if d >= 1 {
                let blen = n - bstart;
                let ext = base.substring_char(d + 1, blen);
                assert(ext@ == ext_of(base@));
                let low = lowercase(ext);
                let mut r = String::from_str("_");
                r.append(low.as_str());
                proof {
                    reveal_strlit("_");
                    assert("_"@ =~= seq!['_']);
                    assert(r@ =~= key_of(f@));
                }
                r
            } else {
                String::from_str("_no_ext")
            }
        },
        None => String::from_str("_no_ext"),
    }
}

/// One extension group: the key and the file paths classified under it,
/// in the order they were encountered.
pub struct Group {
    pub key: String,
    pub files: Vec<String>,
}

/// The grouping of a listing's files, one group per distinct key, the keys
/// in order of first encounter.
pub struct ExtGroups {
    pub groups: Vec<Group>,
}

/// The distinct keys of `files`, in order of first encounter.
pub open spec fn keys_of(files: Seq<Seq<char>>) -> Seq<Seq<char>>
    decreases files.len(),
{
    if files.len() == 0 {
        Seq::empty()
    } else {
        let rest = keys_of(files.drop_last());
        if rest.contains(key_of(files.last())) {
            rest
        } else {
            rest.push(key_of(files.last()))
        }
    }
}

/// The paths among `files` whose key is `k`, in encounter order.
pub open spec fn files_with_key(files: Seq<Seq<char>>, k: Seq<char>) -> Seq<Seq<char>>
    decreases files.len(),
{
    if files.len() == 0 {
        Seq::empty()
    } else {
        let rest = files_with_key(files.drop_last(), k);
        if key_of(files.last()) == k {
            rest.push(files.last())
        } else {
            rest
        }
    }
}

/// The keys of a run of groups, in order.
pub open spec fn group_key_list(groups: Seq<Group>) -> Seq<Seq<char>> {
    groups.map_values(|g: Group| g.key@)
}

impl ExtGroups {
    /// The group keys, in order.
    pub open spec fn keys(self) -> Seq<Seq<char>> {
        group_key_list(self.groups@)
    }

    /// No two groups share a key.
    pub open spec fn wf(self) -> bool {
        forall|i: int, j: int|
            0 <= i < j < self.groups@.len() ==> self.groups@[i].key@ != self.groups@[j].key@
    }
}

/// The index of the group holding `key`, if one does.
fn find_group(groups: &Vec<Group>, key: &String) -> (r: Option<usize>)
    ensures
        match r {
            Some(i) => i < groups@.len() && groups@[i as int].key@ == key@,
            None => forall|i: int| 0 <= i < groups@.len() ==> groups@[i].key@ != key@,
        },
{
    let mut i: usize = 0;
    while i < groups.len()
        invariant
            i <= groups@.len(),
            forall|k: int| 0 <= k < i ==> groups@[k].key@ != key@,
        decreases groups@.len() - i,
    {
        if groups[i].key.eq(key) {
            return Some(i);
        }
        i = i + 1;
    }
    None
}

/// Group the file paths by their extension key: one group per distinct key
/// in order of first encounter, each group holding exactly the paths with
/// that key, in encounter order.
pub fn get_ext_map(files: &Vec<String>) -> (g: ExtGroups)
    ensures
        g.wf(),
        g.keys() == keys_of(files.deep_view()),
        forall|i: int|
            0 <= i < g.groups@.len() ==> (#[trigger] g.groups@[i]).files.deep_view()
                == files_with_key(files.deep_view(), g.groups@[i].key@),
{
    let ghost all = files.deep_view();
    let mut g = ExtGroups { groups: Vec::new() };
    let mut fi: usize = 0;
    while fi < files.len()
        invariant
            fi <= files@.len(),
            all == files.deep_view(),
            g.wf(),
            g.keys() == keys_of(all.take(fi as int)),
            forall|i: int|
                0 <= i < g.groups@.len() ==> (#[trigger] g.groups@[i]).files.deep_view()
                    == files_with_key(all.take(fi as int), g.groups@[i].key@),
        decreases files@.len() - fi,
    {
        let key = get_ext(files[fi].as_str());
        let ghost prefix = all.take(fi as int);
        let ghost step = all.take(fi as int + 1);
        proof {
            assert(step.drop_last() =~= prefix);
            assert(step.last() == all[fi as int]);
            assert(all[fi as int] == files@[fi as int]@);
        }
        match find_group(&g.groups, &key) {
            Some(gi) => {
                let ghost old_groups = g.groups@;
                g.groups[gi].files.push(files[fi].clone());
                proof {
                    assert(g.groups@ =~= old_groups.update(
                        gi as int,
                        Group {
                            key: old_groups[gi as int].key,
                            files: g.groups@[gi as int].files,
                        },
                    ));
                    assert(g.keys() =~= keys_of(prefix));
                    // the key was seen before, so the key list does not grow
                    assert(keys_of(prefix)[gi as int] == old_groups[gi as int].key@);
                    assert(keys_of(prefix).contains(key_of(step.last())));
                    assert(keys_of(step) == keys_of(prefix));
                    assert forall|i: int| 0 <= i < g.groups@.len() implies (#[trigger] g.groups@[i]).files.deep_view()
                        == files_with_key(step, g.groups@[i].key@) by {
                        if i == gi {
                            assert(g.groups@[i].files.deep_view() =~= old_groups[i].files.deep_view().push(
                                all[fi as int],
                            ));
                        } else {
                            assert(g.groups@[i] == old_groups[i]);
                            assert(g.groups@[i].key@ != key_of(step.last()));
                        }
                    }
                }
            },
            None => {
                let mut nf: Vec<String> = Vec::new();
                nf.push(files[fi].clone());
                let ghost nkey = key@;
                g.groups.push(Group { key, files: nf });
                proof {
                    let glen = g.groups@.len();
                    assert(g.groups@.drop_last() =~= g.groups@.subrange(0, glen - 1));
                    // a fresh key: it differs from every key seen so far
                    assert forall|i: int| 0 <= i < keys_of(prefix).len() implies keys_of(prefix)[i]
                        != nkey by {
                        assert(keys_of(prefix)[i] == g.groups@[i].key@);
                    }
                    assert(!keys_of(prefix).contains(key_of(step.last())));
                    assert(keys_of(step) == keys_of(prefix).push(nkey));
                    assert(g.keys() =~= keys_of(step));
                    lemma_absent_key_empty_group(prefix, nkey);
                    assert forall|i: int| 0 <= i < glen implies (#[trigger] g.groups@[i]).files.deep_view()
                        == files_with_key(step, g.groups@[i].key@) by {
                        if i == glen - 1 {
                            assert(g.groups@[i].files.deep_view() =~= Seq::<Seq<char>>::empty().push(
                                all[fi as int],
                            ));
                            assert(files_with_key(step, nkey) == files_with_key(prefix, nkey).push(
                                all[fi as int],
                            ));
                        } else {
                            assert(g.groups@[i].key@ != key_of(step.last()));
                        }
                    }
                }
            },
        }
        fi = fi + 1;
    }
    proof {
        assert(all.take(files@.len() as int) =~= all);
    }
    g
}

/// A key that never occurs among the files has an empty group.
proof fn lemma_absent_key_empty_group(files: Seq<Seq<char>>, k: Seq<char>)
    requires
        !keys_of(files).contains(k),
    ensures
        files_with_key(files, k) == Seq::<Seq<char>>::empty(),
    decreases files.len(),
{
    if files.len() > 0 {
        let rest = keys_of(files.drop_last());
        assert forall|x: Seq<char>| rest.contains(x) implies keys_of(files).contains(x) by {
            let i = choose|i: int| 0 <= i < rest.len() && rest[i] == x;
            if !rest.contains(key_of(files.last())) {
                assert(keys_of(files)[i] == x);
            }
        }
        if key_of(files.last()) == k {
            if rest.contains(k) {
                assert(keys_of(files).contains(k));
            } else {
                assert(keys_of(files).last() == k);
                assert(keys_of(files).contains(k));
            }
        }
        lemma_absent_key_empty_group(files.drop_last(), k);
    }
}

/// Every member of a key's group is one of the files, and its own key is
/// that group's key.
pub proof fn lemma_group_members(files: Seq<Seq<char>>, k: Seq<char>)
    ensures
        forall|x: Seq<char>| #[trigger]
            files_with_key(files, k).contains(x) ==> files.contains(x) && key_of(x) == k,
    decreases files.len(),
{
    if files.len() > 0 {
        lemma_group_members(files.drop_last(), k);
        assert forall|x: Seq<char>| #[trigger] files_with_key(files, k).contains(x) implies files.contains(
            x,
        ) && key_of(x) == k by {
            let grp = files_with_key(files, k);
            if key_of(files.last()) == k && x == files.last() {
                assert(files[files.len() - 1] == x);
            } else {
                let rest = files_with_key(files.drop_last(), k);
                if key_of(files.last()) == k {
                    let i = choose|i: int| 0 <= i < grp.len() && grp[i] == x;
                    assert(grp.drop_last() =~= rest);
                    assert(rest[i] == x);
                }
                assert(rest.contains(x));
                assert(files.drop_last().contains(x));
                let j = choose|j: int|
                    0 <= j < files.drop_last().len() && files.drop_last()[j] == x;
                assert(files[j] == x);
            }
        }
    }
}

/// Every file's key is among the keys, and the file stands in its key's group.
pub proof fn lemma_file_in_its_group(files: Seq<Seq<char>>, j: int)
    requires
        0 <= j < files.len(),
    ensures
        keys_of(files).contains(key_of(files[j])),
        files_with_key(files, key_of(files[j])).contains(files[j]),
    decreases files.len(),
{
    let k = key_of(files[j]);
    let rest = keys_of(files.drop_last());
    if j == files.len() - 1 {
        if rest.contains(k) {
            assert forall|x: Seq<char>| rest.contains(x) implies keys_of(files).contains(x) by {
                let i = choose|i: int| 0 <= i < rest.len() && rest[i] == x;
                if !rest.contains(key_of(files.last())) {
                    assert(keys_of(files)[i] == x);
                }
            }
        } else {
            assert(keys_of(files).last() == k);
        }
        assert(files_with_key(files, k).last() == files[j]);
    } else {
        assert(files.drop_last()[j] == files[j]);
        lemma_file_in_its_group(files.drop_last(), j);
        assert forall|x: Seq<char>| rest.contains(x) implies keys_of(files).contains(x) by {
            let i = choose|i: int| 0 <= i < rest.len() && rest[i] == x;
            if !rest.contains(key_of(files.last())) {
                assert(keys_of(files)[i] == x);
            }
        }
        let restf = files_with_key(files.drop_last(), k);
        assert forall|x: Seq<char>| restf.contains(x) implies files_with_key(files, k).contains(
            x,
        ) by {
            let i = choose|i: int| 0 <= i < restf.len() && restf[i] == x;
            if key_of(files.last()) == k {
                assert(files_with_key(files, k)[i] == x);
            }
        }
    }
}

/// Every file of a listing stands in exactly one extension group: in the
/// group of its own key, and in no group with another key.
pub proof fn lemma_file_in_exactly_one_group(files: Seq<Seq<char>>, j: int)
    requires
        0 <= j < files.len(),
    ensures
        keys_of(files).contains(key_of(files[j])),
        files_with_key(files, key_of(files[j])).contains(files[j]),
        forall|k: Seq<char>| #[trigger]
            files_with_key(files, k).contains(files[j]) ==> k == key_of(files[j]),
{
    lemma_file_in_its_group(files, j);
    assert forall|k: Seq<char>| #[trigger] files_with_key(files, k).contains(files[j]) implies k
        == key_of(files[j]) by {
        lemma_group_members(files, k);
    }
}

} // verus!
