//! Facts about the model that the store's operations rely on: each
//! successful operation keeps the consistency rules.
use crate::model::{
    absorb, folder_ids, has_tag_named, ids_increasing, note_ids, tag_ids, tag_named, vocabulary_valid,
    link_other_than, note_other_than, FolderV, NoteV, NotebookV, TagV,
};
use vstd::prelude::*;

verus! {

broadcast use vstd::seq_lib::group_filter_ensures;

/// In a table of growing identities, an identity sits at one index only.
pub proof fn lemma_ids_unique(ids: Seq<i64>, i: int)
    requires
        ids_increasing(ids),
        0 <= i < ids.len(),
    ensures
        forall|j: int| 0 <= j < ids.len() && ids[j] == ids[i] ==> j == i,
{
    assert forall|j: int| 0 <= j < ids.len() && ids[j] == ids[i] implies j == i by {
        if j < i {
            assert(ids[j] < ids[i]);
        } else if i < j {
            assert(ids[i] < ids[j]);
        }
    }
}

/// Adding a folder under an existing parent keeps the store consistent.
pub proof fn lemma_add_folder_valid(s: NotebookV, name: Seq<char>, parent_id: Option<i64>)
    requires
        s.valid(),
        s.folder_ok(parent_id),
        s.next_folder_id < i64::MAX,
    ensures
        s.add_folder(name, parent_id).valid(),
        forall|f: i64| s.has_folder(f) ==> #[trigger] s.add_folder(name, parent_id).has_folder(f),
{
    let t = s.add_folder(name, parent_id);
    assert(t.notes == s.notes && t.tags == s.tags && t.links == s.links && t.prefs == s.prefs);
    assert forall|n: i64| s.has_note(n) implies #[trigger] t.has_note(n) by {}
    assert forall|n: i64| s.has_tag(n) implies #[trigger] t.has_tag(n) by {}
    assert forall|f: i64| s.has_folder(f) implies #[trigger] t.has_folder(f) by {
        let i = choose|i: int| 0 <= i < s.folders.len() && #[trigger] s.folders[i].id == f;
        assert(t.folders[i].id == f);
    }
    let n = s.folders.len() as int;
    assert(t.folders[n].id == s.next_folder_id);
    assert forall|i: int, j: int| 0 <= i < j < folder_ids(t.folders).len() implies folder_ids(
        t.folders,
    )[i] < folder_ids(t.folders)[j] by {
        if j < n {
            assert(folder_ids(s.folders)[i] < folder_ids(s.folders)[j]);
        } else {
            assert(s.folders[i].id < s.next_folder_id);
        }
    }
    assert forall|i: int| 0 <= i < t.folders.len() implies {
        &&& #[trigger] t.folders[i].id < t.next_folder_id
        &&& t.folders[i].parent_id matches Some(p) ==> p < t.folders[i].id && t.has_folder(p)
    } by {
        if i < n {
            assert(s.folders[i].id < s.next_folder_id);
            if let Some(p) = s.folders[i].parent_id {
                assert(s.has_folder(p));
            }
        } else {
            if let Some(p) = parent_id {
                assert(s.has_folder(p));
                let k = choose|k: int| 0 <= k < s.folders.len() && #[trigger] s.folders[k].id == p;
                assert(s.folders[k].id < s.next_folder_id);
            }
        }
    }
    assert forall|i: int| 0 <= i < t.notes.len() implies {
        &&& #[trigger] t.notes[i].id < t.next_note_id
        &&& t.notes[i].folder_id matches Some(f) ==> t.has_folder(f)
    } by {
        assert(s.notes[i].id < s.next_note_id);
        if let Some(f) = s.notes[i].folder_id {
            assert(s.has_folder(f));
        }
    }
}

/// Renaming touches the one row that holds the identity.
pub proof fn lemma_rename_folder_at(s: NotebookV, i: int, name: Seq<char>)
    requires
        s.valid(),
        0 <= i < s.folders.len(),
    ensures
        s.rename_folder(s.folders[i].id, name).folders == s.folders.update(
            i,
            FolderV { name, ..s.folders[i] },
        ),
{
    lemma_ids_unique(folder_ids(s.folders), i);
    let id = s.folders[i].id;
    assert forall|j: int| 0 <= j < s.folders.len() && j != i implies s.folders[j].id != id by {
        assert(folder_ids(s.folders)[j] == s.folders[j].id);
    }
    assert(s.rename_folder(id, name).folders =~= s.folders.update(i, FolderV { name, ..s.folders[i] }));
}

/// Renaming a folder keeps the store consistent.
pub proof fn lemma_rename_folder_valid(s: NotebookV, id: i64, name: Seq<char>)
    requires
        s.valid(),
    ensures
        s.rename_folder(id, name).valid(),
{
    let t = s.rename_folder(id, name);
    assert(folder_ids(t.folders) =~= folder_ids(s.folders));
    assert(t.notes == s.notes && t.tags == s.tags && t.links == s.links && t.prefs == s.prefs);
    assert forall|n: i64| s.has_note(n) implies #[trigger] t.has_note(n) by {}
    assert forall|n: i64| s.has_tag(n) implies #[trigger] t.has_tag(n) by {}
    assert forall|f: i64| s.has_folder(f) implies #[trigger] t.has_folder(f) by {
        let i = choose|i: int| 0 <= i < s.folders.len() && #[trigger] s.folders[i].id == f;
        assert(t.folders[i].id == f);
    }
    assert forall|i: int| 0 <= i < t.folders.len() implies {
        &&& #[trigger] t.folders[i].id < t.next_folder_id
        &&& t.folders[i].parent_id matches Some(p) ==> p < t.folders[i].id && t.has_folder(p)
    } by {
        assert(s.folders[i].id < s.next_folder_id);
        if let Some(p) = s.folders[i].parent_id {
            assert(s.has_folder(p));
        }
    }
    assert forall|i: int| 0 <= i < t.notes.len() implies {
        &&& #[trigger] t.notes[i].id < t.next_note_id
        &&& t.notes[i].folder_id matches Some(f) ==> t.has_folder(f)
    } by {
        assert(s.notes[i].id < s.next_note_id);
        if let Some(f) = s.notes[i].folder_id {
            assert(s.has_folder(f));
        }
    }
}


/// Keeping some rows of a table keeps its identities growing.
pub proof fn lemma_filter_increasing<A>(s: Seq<A>, key: spec_fn(A) -> i64, p: spec_fn(A) -> bool)
    requires
        ids_increasing(s.map_values(key)),
    ensures
        ids_increasing(s.filter(p).map_values(key)),
    decreases s.len(),
{
    reveal(Seq::filter);
    if s.len() > 0 {
        let prev = s.drop_last();
        assert(ids_increasing(prev.map_values(key))) by {
            assert forall|i: int, j: int| 0 <= i < j < prev.len() implies prev.map_values(key)[i]
                < prev.map_values(key)[j] by {
                assert(s.map_values(key)[i] < s.map_values(key)[j]);
            }
        }
        lemma_filter_increasing(prev, key, p);
        if p(s.last()) {
            let f = prev.filter(p);
            assert forall|i: int| 0 <= i < f.len() implies key(f[i]) < key(s.last()) by {
                prev.lemma_filter_contains_rev(p, f[i]);
                let k = choose|k: int| 0 <= k < prev.len() && prev[k] == f[i];
                assert(s.map_values(key)[k] < s.map_values(key)[s.len() - 1]);
            }
            assert forall|i: int, j: int| 0 <= i < j < f.push(s.last()).len() implies f.push(
                s.last(),
            ).map_values(key)[i] < f.push(s.last()).map_values(key)[j] by {
                if j < f.len() {
                    assert(f.map_values(key)[i] < f.map_values(key)[j]);
                }
            }
        }
    }
}

/// Filtering a table and then taking its rows as a set is taking the set and
/// then filtering it.
pub proof fn lemma_filter_to_set<A>(s: Seq<A>, p: spec_fn(A) -> bool)
    ensures
        s.filter(p).to_set() == s.to_set().filter(p),
{
    assert forall|x: A| #[trigger] s.filter(p).contains(x) <==> s.contains(x) && p(x) by {
        if s.filter(p).contains(x) {
            s.lemma_filter_contains_rev(p, x);
            let k = choose|k: int| 0 <= k < s.filter(p).len() && s.filter(p)[k] == x;
            assert(p(s.filter(p)[k]));
        }
        if s.contains(x) && p(x) {
            let k = choose|k: int| 0 <= k < s.len() && s[k] == x;
            s.lemma_filter_contains(p, k);
        }
    }
    assert(s.filter(p).to_set() =~= s.to_set().filter(p));
}

/// Two rows with one identity are one row.
pub proof fn lemma_parent_of(s: NotebookV, j: int)
    requires
        s.valid(),
        0 <= j < s.folders.len(),
    ensures
        s.parent_of(s.folders[j].id) == s.folders[j].parent_id,
        s.has_folder(s.folders[j].id),
{
    let id = s.folders[j].id;
    assert(s.has_folder(id));
    let k = choose|k: int| 0 <= k < s.folders.len() && #[trigger] s.folders[k].id == id;
    lemma_ids_unique(folder_ids(s.folders), j);
    assert(folder_ids(s.folders)[k] == id);
}

/// A subtree lies at or above its root's identity, and only exists below an
/// existing root.
pub proof fn lemma_subtree_bounds(s: NotebookV, x: i64, root: i64)
    requires
        s.valid(),
        s.in_subtree(x, root),
        x != root,
    ensures
        root < x,
        s.has_folder(root),
    decreases x - root,
{
    let p = s.parent_of(x)->0;
    if p != root {
        lemma_subtree_bounds(s, p, root);
    } else {
        assert(s.has_folder(x));
        let k = choose|k: int| 0 <= k < s.folders.len() && #[trigger] s.folders[k].id == x;
        assert(s.folders[k].parent_id matches Some(q) ==> s.has_folder(q));
    }
}

/// A subtree is its root and the subtrees of the root's children.
pub proof fn lemma_subtree_children(s: NotebookV, x: i64, root: i64)
    requires
        s.valid(),
        s.has_folder(x),
    ensures
        s.in_subtree(x, root) <==> x == root || exists|j: int|
            0 <= j < s.folders.len() && s.folders[j].parent_id == Some(root) && s.in_subtree(
                x,
                #[trigger] s.folders[j].id,
            ),
    decreases x - root,
{
    if x != root {
        let k = choose|k: int| 0 <= k < s.folders.len() && #[trigger] s.folders[k].id == x;
        lemma_parent_of(s, k);
        if s.in_subtree(x, root) {
            let p = s.parent_of(x)->0;
            if p == root {
                assert(s.folders[k].parent_id == Some(root) && s.in_subtree(x, s.folders[k].id));
            } else {
                assert(s.has_folder(p));
                lemma_subtree_children(s, p, root);
                let j = choose|j: int|
                    0 <= j < s.folders.len() && s.folders[j].parent_id == Some(root) && s.in_subtree(
                        p,
                        #[trigger] s.folders[j].id,
                    );
                let c = s.folders[j].id;
                if p != c {
                    lemma_subtree_bounds(s, p, c);
                }
                assert(s.in_subtree(x, c));
            }
        }
        if exists|j: int|
            0 <= j < s.folders.len() && s.folders[j].parent_id == Some(root) && s.in_subtree(
                x,
                #[trigger] s.folders[j].id,
            ) {
            let j = choose|j: int|
                0 <= j < s.folders.len() && s.folders[j].parent_id == Some(root) && s.in_subtree(
                    x,
                    #[trigger] s.folders[j].id,
                );
            lemma_subtree_through_child(s, x, root, j);
        }
    }
}

/// What lies below a child of `root` lies below `root`.
pub proof fn lemma_subtree_through_child(s: NotebookV, x: i64, root: i64, j: int)
    requires
        s.valid(),
        0 <= j < s.folders.len(),
        s.folders[j].parent_id == Some(root),
        s.in_subtree(x, s.folders[j].id),
    ensures
        s.in_subtree(x, root),
    decreases x - s.folders[j].id,
{
    let c = s.folders[j].id;
    lemma_parent_of(s, j);
    assert(root < c);
    if x == c {
        assert(s.in_subtree(root, root));
    } else {
        let p = s.parent_of(x)->0;
        lemma_subtree_through_child(s, p, root, j);
        if p != c {
            lemma_subtree_bounds(s, p, c);
        }
    }
}


/// A row kept by a filter was a row before.
pub proof fn lemma_filter_elem<A>(s: Seq<A>, p: spec_fn(A) -> bool, i: int)
    requires
        0 <= i < s.filter(p).len(),
    ensures
        p(s.filter(p)[i]),
        exists|k: int| 0 <= k < s.len() && s[k] == s.filter(p)[i],
{
    s.lemma_filter_contains_rev(p, s.filter(p)[i]);
}

/// Deleting a subtree keeps the store consistent: no survivor refers to a
/// removed folder or note.
pub proof fn lemma_delete_folder_valid(s: NotebookV, root: i64)
    requires
        s.valid(),
    ensures
        s.delete_folder(root).valid(),
{
    let t = s.delete_folder(root);
    let fk = s.folder_kept(root);
    let nk = s.note_kept(root);
    lemma_filter_increasing(s.folders, |f: FolderV| f.id, fk);
    assert(folder_ids(t.folders) =~= t.folders.map_values(|f: FolderV| f.id));
    assert(folder_ids(s.folders) =~= s.folders.map_values(|f: FolderV| f.id));
    lemma_filter_increasing(s.notes, |n: NoteV| n.id, nk);
    assert(note_ids(t.notes) =~= t.notes.map_values(|n: NoteV| n.id));
    assert(note_ids(s.notes) =~= s.notes.map_values(|n: NoteV| n.id));
    // a folder outside the subtree survives
    assert forall|f: i64| s.has_folder(f) && !s.in_subtree(f, root) implies #[trigger] t.has_folder(
        f,
    ) by {
        let m = choose|m: int| 0 <= m < s.folders.len() && #[trigger] s.folders[m].id == f;
        s.folders.lemma_filter_contains(fk, m);
        let q = choose|q: int| 0 <= q < t.folders.len() && t.folders[q] == s.folders[m];
        assert(t.folders[q].id == f);
    }
    assert forall|i: int| 0 <= i < t.folders.len() implies {
        &&& #[trigger] t.folders[i].id < t.next_folder_id
        &&& t.folders[i].parent_id matches Some(p) ==> p < t.folders[i].id && t.has_folder(p)
    } by {
        lemma_filter_elem(s.folders, fk, i);
        let k = choose|k: int| 0 <= k < s.folders.len() && s.folders[k] == t.folders[i];
        assert(s.folders[k].id < s.next_folder_id);
        if let Some(p) = s.folders[k].parent_id {
            assert(s.has_folder(p));
            lemma_parent_of(s, k);
            if s.in_subtree(p, root) {
                if p != root {
                    lemma_subtree_bounds(s, p, root);
                }
                assert(s.in_subtree(s.folders[k].id, root));
            }
        }
    }
    assert forall|i: int| 0 <= i < t.notes.len() implies {
        &&& #[trigger] t.notes[i].id < t.next_note_id
        &&& t.notes[i].folder_id matches Some(f) ==> t.has_folder(f)
    } by {
        lemma_filter_elem(s.notes, nk, i);
        let k = choose|k: int| 0 <= k < s.notes.len() && s.notes[k] == t.notes[i];
        assert(s.notes[k].id < s.next_note_id);
        if let Some(f) = s.notes[k].folder_id {
            assert(s.has_folder(f));
        }
    }
    assert forall|l: (i64, i64)| #[trigger] t.links.contains(l) implies t.has_note(l.0) && t.has_tag(
        l.1,
    ) by {
        assert(s.links.contains(l));
        assert(s.has_note(l.0) && s.has_tag(l.1));
        let k = choose|k: int| 0 <= k < s.notes.len() && #[trigger] s.notes[k].id == l.0;
        assert(!s.folder_under(s.notes[k].folder_id, root));
        s.notes.lemma_filter_contains(nk, k);
        let q = choose|q: int| 0 <= q < t.notes.len() && t.notes[q] == s.notes[k];
        assert(t.notes[q].id == l.0);
        let m = choose|m: int| 0 <= m < s.tags.len() && #[trigger] s.tags[m].id == l.1;
        assert(t.tags[m].id == l.1);
    }
}


/// What making names exist does to a vocabulary: the old entries stay first
/// and unchanged, at most one entry is added per name, every name is present
/// afterwards, and the vocabulary stays valid.
pub proof fn lemma_absorb(tags: Seq<TagV>, next: int, names: Seq<Seq<char>>)
    requires
        vocabulary_valid(tags, next),
        0 <= next,
        next + names.len() <= i64::MAX,
    ensures
        ({
            let a = absorb(tags, next, names);
            &&& tags.len() <= a.len() <= tags.len() + names.len()
            &&& a.take(tags.len() as int) == tags
            &&& vocabulary_valid(a, next + a.len() - tags.len())
            &&& forall|k: int| 0 <= k < names.len() ==> has_tag_named(a, #[trigger] names[k])
            &&& forall|i: int|
                tags.len() <= i < a.len() ==> exists|k: int|
                    0 <= k < names.len() && #[trigger] a[i].name == names[k]
        }),
    decreases names.len(),
{
    if names.len() > 0 {
        let init = names.drop_last();
        lemma_absorb(tags, next, init);
        let prev = absorb(tags, next, init);
        let a = absorb(tags, next, names);
        assert forall|k: int| 0 <= k < init.len() implies has_tag_named(prev, #[trigger] names[k]) by {
            assert(init[k] == names[k]);
        }
        if !has_tag_named(prev, names.last()) {
            let nt = TagV { id: (next + prev.len() - tags.len()) as i64, name: names.last() };
            assert(a == prev.push(nt));
            assert(nt.id == next + prev.len() - tags.len());
            assert forall|i: int| 0 <= i < a.len() implies #[trigger] a[i].id < next + a.len()
                - tags.len() by {
                if i < prev.len() {
                    assert(prev[i].id < next + prev.len() - tags.len());
                }
            }
            assert(a.take(tags.len() as int) =~= prev.take(tags.len() as int));
            assert(ids_increasing(tag_ids(a))) by {
                assert forall|i: int, j: int| 0 <= i < j < tag_ids(a).len() implies tag_ids(a)[i]
                    < tag_ids(a)[j] by {
                    if j < prev.len() {
                        assert(tag_ids(prev)[i] < tag_ids(prev)[j]);
                    } else {
                        assert(prev[i].id < next + prev.len() - tags.len());
                    }
                }
            }
            assert forall|i: int, j: int| 0 <= i < j < a.len() implies #[trigger] a[i].name
                != #[trigger] a[j].name by {
                if j < prev.len() {
                    assert(prev[i].name != prev[j].name);
                } else {
                    assert(prev[i].name == a[i].name);
                }
            }
            assert forall|k: int| 0 <= k < names.len() implies has_tag_named(a, #[trigger] names[k]) by {
                if k < init.len() {
                    let i = choose|i: int| 0 <= i < prev.len() && #[trigger] prev[i].name == names[k];
                    assert(a[i].name == names[k]);
                } else {
                    assert(a[prev.len() as int].name == names[k]);
                }
            }
            assert forall|i: int| tags.len() <= i < a.len() implies exists|k: int|
                0 <= k < names.len() && #[trigger] a[i].name == names[k] by {
                if i < prev.len() {
                    let k = choose|k: int| 0 <= k < init.len() && #[trigger] prev[i].name == init[k];
                    assert(a[i].name == names[k]);
                } else {
                    assert(a[i].name == names[names.len() - 1]);
                }
            }
        } else {
            assert(a == prev);
            assert forall|k: int| 0 <= k < names.len() implies has_tag_named(a, #[trigger] names[k]) by {
                if k == init.len() {
                    assert(names[k] == names.last());
                }
            }
            assert forall|i: int| tags.len() <= i < a.len() implies exists|k: int|
                0 <= k < names.len() && #[trigger] a[i].name == names[k] by {
                let k = choose|k: int| 0 <= k < init.len() && #[trigger] prev[i].name == init[k];
                assert(a[i].name == names[k]);
            }
        }
    } else {
        assert(tags.take(tags.len() as int) =~= tags);
    }
}

/// In a vocabulary of distinct names, a name has at most one identity, and
/// an identity at most one name.
pub proof fn lemma_tag_named_unique(tags: Seq<TagV>, next: int, name: Seq<char>, a: i64, b: i64)
    requires
        vocabulary_valid(tags, next),
        tag_named(tags, name, a),
        tag_named(tags, name, b),
    ensures
        a == b,
{
    let i = choose|i: int| 0 <= i < tags.len() && #[trigger] tags[i].name == name && tags[i].id == a;
    let j = choose|j: int| 0 <= j < tags.len() && #[trigger] tags[j].name == name && tags[j].id == b;
    if i < j {
        assert(tags[i].name != tags[j].name);
    } else if j < i {
        assert(tags[j].name != tags[i].name);
    }
}

/// The store with note rows `notes` and counter `next_note_id` in place of
/// its own.
pub open spec fn with_notes(s: NotebookV, notes: Seq<NoteV>, next_note_id: int) -> NotebookV {
    NotebookV { notes, next_note_id, ..s }
}

/// Replacing the note rows keeps the store consistent when the new rows have
/// growing identities below the counter, refer to existing folders, and keep
/// every note that has associations.
pub proof fn lemma_notes_replaced_valid(s: NotebookV, notes: Seq<NoteV>, next_note_id: int)
    requires
        s.valid(),
        s.next_note_id <= next_note_id <= i64::MAX,
        ids_increasing(note_ids(notes)),
        forall|i: int|
            0 <= i < notes.len() ==> {
                &&& #[trigger] notes[i].id < next_note_id
                &&& notes[i].folder_id matches Some(f) ==> s.has_folder(f)
            },
        forall|l: (i64, i64)| #[trigger]
            s.links.contains(l) ==> exists|i: int| 0 <= i < notes.len() && #[trigger] notes[i].id == l.0,
    ensures
        with_notes(s, notes, next_note_id).valid(),
{
    let t = with_notes(s, notes, next_note_id);
    assert forall|f: i64| s.has_folder(f) implies #[trigger] t.has_folder(f) by {}
    assert forall|i: int| 0 <= i < t.folders.len() implies {
        &&& #[trigger] t.folders[i].id < t.next_folder_id
        &&& t.folders[i].parent_id matches Some(p) ==> p < t.folders[i].id && t.has_folder(p)
    } by {
        assert(s.folders[i].id < s.next_folder_id);
    }
    assert forall|l: (i64, i64)| #[trigger] t.links.contains(l) implies t.has_note(l.0) && t.has_tag(
        l.1,
    ) by {
        assert(s.has_tag(l.1));
        let b = choose|b: int| 0 <= b < s.tags.len() && #[trigger] s.tags[b].id == l.1;
        assert(t.tags[b].id == l.1);
    }
}

/// Deleting a note keeps the store consistent.
pub proof fn lemma_delete_note_valid(s: NotebookV, id: i64)
    requires
        s.valid(),
    ensures
        s.delete_note(id).valid(),
{
    let p = note_other_than(id);
    let notes = s.notes.filter(p);
    let s1 = NotebookV { links: s.links.filter(link_other_than(id)), ..s };
    lemma_filter_increasing(s.notes, |n: NoteV| n.id, p);
    assert(note_ids(notes) =~= notes.map_values(|n: NoteV| n.id));
    assert(note_ids(s.notes) =~= s.notes.map_values(|n: NoteV| n.id));
    assert forall|i: int| 0 <= i < notes.len() implies {
        &&& #[trigger] notes[i].id < s.next_note_id
        &&& notes[i].folder_id matches Some(f) ==> s.has_folder(f)
    } by {
        lemma_filter_elem(s.notes, p, i);
        let k = choose|k: int| 0 <= k < s.notes.len() && s.notes[k] == notes[i];
        assert(s.notes[k].id < s.next_note_id);
    }
    assert forall|l: (i64, i64)| #[trigger] s1.links.contains(l) implies exists|i: int|
        0 <= i < notes.len() && #[trigger] notes[i].id == l.0 by {
        assert(s.has_note(l.0));
        let k = choose|k: int| 0 <= k < s.notes.len() && #[trigger] s.notes[k].id == l.0;
        s.notes.lemma_filter_contains(p, k);
        let q = choose|q: int| 0 <= q < notes.len() && notes[q] == s.notes[k];
        assert(notes[q].id == l.0);
    }
    assert forall|l: (i64, i64)| #[trigger] s1.links.contains(l) implies s1.has_note(l.0) && s1.has_tag(l.1) by {
        assert(s.links.contains(l));
        assert(s.has_note(l.0) && s.has_tag(l.1));
        let a = choose|a: int| 0 <= a < s.notes.len() && #[trigger] s.notes[a].id == l.0;
        let b = choose|b: int| 0 <= b < s.tags.len() && #[trigger] s.tags[b].id == l.1;
        assert(s1.notes[a].id == l.0 && s1.tags[b].id == l.1);
    }
    assert(s1.valid()) by {
        assert forall|i: int| 0 <= i < s1.folders.len() implies {
            &&& #[trigger] s1.folders[i].id < s1.next_folder_id
            &&& s1.folders[i].parent_id matches Some(p) ==> p < s1.folders[i].id && s1.has_folder(p)
        } by {
            assert(s.folders[i].id < s.next_folder_id);
        }
        assert forall|i: int| 0 <= i < s1.notes.len() implies {
            &&& #[trigger] s1.notes[i].id < s1.next_note_id
            &&& s1.notes[i].folder_id matches Some(f) ==> s1.has_folder(f)
        } by {
            assert(s.notes[i].id < s.next_note_id);
        }
    }
    lemma_notes_replaced_valid(s1, notes, s.next_note_id);
    assert(with_notes(s1, notes, s.next_note_id) == s.delete_note(id));
}

} // verus!
