//! Properties of the store that relate several operations, proved over the
//! model that the operations' contracts are stated in.
use crate::lemmas::{lemma_absorb, lemma_filter_elem, lemma_subtree_bounds, lemma_subtree_children};
use crate::model::{
    absorb, has_tag_named, ids_increasing, tag_ids, tag_named, vocabulary_names, vocabulary_valid,
    NotebookV, TagV,
};
use vstd::prelude::*;

verus! {

broadcast use vstd::seq_lib::group_filter_ensures;

/// Keeping some entries of a vocabulary with distinct names keeps the names
/// distinct.
proof fn lemma_filter_names_distinct(tags: Seq<TagV>, p: spec_fn(TagV) -> bool)
    requires
        vocabulary_names(tags).no_duplicates(),
    ensures
        vocabulary_names(tags.filter(p)).no_duplicates(),
    decreases tags.len(),
{
    reveal(Seq::filter);
    if tags.len() > 0 {
        let prev = tags.drop_last();
        assert(vocabulary_names(prev).no_duplicates()) by {
            assert forall|i: int, j: int| 0 <= i < prev.len() && 0 <= j < prev.len() && i != j implies vocabulary_names(prev)[i] != vocabulary_names(prev)[j] by {
                assert(vocabulary_names(tags)[i] != vocabulary_names(tags)[j]);
            }
        }
        lemma_filter_names_distinct(prev, p);
        if p(tags.last()) {
            let f = prev.filter(p);
            let g = f.push(tags.last());
            assert forall|i: int| 0 <= i < f.len() implies f[i].name != tags.last().name by {
                prev.lemma_filter_contains_rev(p, f[i]);
                let k = choose|k: int| 0 <= k < prev.len() && prev[k] == f[i];
                assert(vocabulary_names(tags)[k] != vocabulary_names(tags)[tags.len() - 1]);
            }
            assert forall|i: int, j: int| 0 <= i < g.len() && 0 <= j < g.len() && i != j implies vocabulary_names(g)[i] != vocabulary_names(g)[j] by {
                if i < f.len() && j < f.len() {
                    assert(vocabulary_names(f)[i] != vocabulary_names(f)[j]);
                }
            }
        }
    }
}

/// After the tags of a note are set to `names`, reading them back gives each
/// name of `names` exactly once and nothing else.
pub proof fn lemma_tags_read_back(s: NotebookV, id: i64, names: Seq<Seq<char>>)
    requires
        vocabulary_valid(s.tags, s.next_tag_id),
        0 <= s.next_tag_id,
        s.tag_room(names.len() as int),
    ensures
        s.set_tags(id, names).tags_of(id).to_set() == names.to_set(),
        s.set_tags(id, names).tags_of(id).no_duplicates(),
{
    let t = s.set_tags(id, names);
    lemma_absorb(s.tags, s.next_tag_id, names);
    let p = t.tagged(id);
    let f = t.tags.filter(p);
    assert forall|i: int| 0 <= i < t.tags.len() implies #[trigger] p(t.tags[i]) == names.contains(
        t.tags[i].name,
    ) by {
        if p(t.tags[i]) {
            let k = choose|k: int| 0 <= k < names.len() && tag_named(t.tags, #[trigger] names[k], t.tags[i].id);
            let j = choose|j: int|
                0 <= j < t.tags.len() && #[trigger] t.tags[j].name == names[k] && t.tags[j].id == t.tags[i].id;
            if j < i {
                assert(tag_ids(t.tags)[j] < tag_ids(t.tags)[i]);
            } else if i < j {
                assert(tag_ids(t.tags)[i] < tag_ids(t.tags)[j]);
            }
        }
        if names.contains(t.tags[i].name) {
            let k = choose|k: int| 0 <= k < names.len() && names[k] == t.tags[i].name;
            assert(tag_named(t.tags, names[k], t.tags[i].id));
        }
    }
    assert forall|n: Seq<char>| #[trigger] vocabulary_names(f).contains(n) <==> names.contains(n) by {
        if vocabulary_names(f).contains(n) {
            let q = choose|q: int| 0 <= q < f.len() && vocabulary_names(f)[q] == n;
            lemma_filter_elem(t.tags, p, q);
            let i = choose|i: int| 0 <= i < t.tags.len() && t.tags[i] == f[q];
        }
        if names.contains(n) {
            let k = choose|k: int| 0 <= k < names.len() && names[k] == n;
            assert(has_tag_named(t.tags, names[k]));
            let i = choose|i: int| 0 <= i < t.tags.len() && #[trigger] t.tags[i].name == names[k];
            t.tags.lemma_filter_contains(p, i);
            let q = choose|q: int| 0 <= q < f.len() && f[q] == t.tags[i];
            assert(vocabulary_names(f)[q] == n);
        }
    }
    assert(t.tags_of(id).to_set() =~= names.to_set());
    assert(vocabulary_names(t.tags).no_duplicates()) by {
        assert forall|i: int, j: int| 0 <= i < t.tags.len() && 0 <= j < t.tags.len() && i != j implies vocabulary_names(t.tags)[i] != vocabulary_names(t.tags)[j] by {
            if i < j {
                assert(t.tags[i].name != t.tags[j].name);
            } else {
                assert(t.tags[j].name != t.tags[i].name);
            }
        }
    }
    lemma_filter_names_distinct(t.tags, p);
}

/// Setting the tags of a note twice leaves exactly the second set: after
/// `update_note` with `first` and then with `second`, the note's tags are the
/// distinct names of `second`, never a union with `first`.
pub proof fn retagging_replaces(
    s: NotebookV,
    id: i64,
    title: Seq<char>,
    content: Seq<char>,
    is_markdown: bool,
    folder_id: Option<i64>,
    first: Seq<Seq<char>>,
    second: Seq<Seq<char>>,
)
    requires
        s.valid(),
        s.has_note(id),
        s.folder_ok(folder_id),
        s.tag_room(first.len() + second.len() as int),
    ensures
        ({
            let s2 = s.update_note(id, title, content, is_markdown, folder_id, first).update_note(
                id,
                title,
                content,
                is_markdown,
                folder_id,
                second,
            );
            &&& s2.tags_of(id).to_set() == second.to_set()
            &&& s2.tags_of(id).no_duplicates()
        }),
{
    let s1 = s.update_note(id, title, content, is_markdown, folder_id, first);
    lemma_absorb(s.tags, s.next_tag_id, first);
    let inner = NotebookV {
        notes: s1.notes.map_values(
            |n: crate::model::NoteV|
                if n.id == id {
                    crate::model::NoteV { id, title, content, is_markdown, folder_id }
                } else {
                    n
                },
        ),
        ..s1
    };
    lemma_tags_read_back(inner, id, second);
}

/// A filter that keeps every element keeps the sequence.
proof fn lemma_filter_keeps_all<A>(s: Seq<A>, p: spec_fn(A) -> bool)
    requires
        forall|i: int| 0 <= i < s.len() ==> p(#[trigger] s[i]),
    ensures
        s.filter(p) == s,
    decreases s.len(),
{
    reveal(Seq::filter);
    if s.len() > 0 {
        lemma_filter_keeps_all(s.drop_last(), p);
        assert(s.drop_last().push(s.last()) =~= s);
    }
}

/// Two filters that agree on every element keep the same elements.
proof fn lemma_filter_agree<A>(s: Seq<A>, p: spec_fn(A) -> bool, q: spec_fn(A) -> bool)
    requires
        forall|i: int| 0 <= i < s.len() ==> p(#[trigger] s[i]) == q(s[i]),
    ensures
        s.filter(p) == s.filter(q),
    decreases s.len(),
{
    reveal(Seq::filter);
    if s.len() > 0 {
        lemma_filter_agree(s.drop_last(), p, q);
        assert(p(s[s.len() - 1]) == q(s[s.len() - 1]));
    }
}

/// Making names exist that are all present already leaves the vocabulary
/// as it is.
proof fn lemma_absorb_present(tags: Seq<TagV>, next: int, names: Seq<Seq<char>>)
    requires
        forall|k: int| 0 <= k < names.len() ==> has_tag_named(tags, #[trigger] names[k]),
    ensures
        absorb(tags, next, names) == tags,
    decreases names.len(),
{
    if names.len() > 0 {
        let init = names.drop_last();
        assert forall|k: int| 0 <= k < init.len() implies has_tag_named(tags, #[trigger] init[k]) by {
            assert(init[k] == names[k]);
        }
        lemma_absorb_present(tags, next, init);
        assert(has_tag_named(tags, names[names.len() - 1]));
    }
}

/// Deleting a folder removes it, every folder below it and every note in one
/// of them, and keeps every other folder.
pub proof fn deleting_folder_removes_subtree(s: NotebookV, root: i64)
    requires
        s.valid(),
    ensures
        ({
            let t = s.delete_folder(root);
            &&& !t.has_folder(root)
            &&& forall|i: int| 0 <= i < t.folders.len() ==> !s.in_subtree(#[trigger] t.folders[i].id, root)
            &&& forall|i: int| 0 <= i < t.notes.len() ==> !s.folder_under(#[trigger] t.notes[i].folder_id, root)
            &&& forall|f: i64| s.has_folder(f) && !s.in_subtree(f, root) ==> #[trigger] t.has_folder(f)
        }),
{
    let t = s.delete_folder(root);
    let fk = s.folder_kept(root);
    assert forall|i: int| 0 <= i < t.folders.len() implies !s.in_subtree(#[trigger] t.folders[i].id, root) by {
        lemma_filter_elem(s.folders, fk, i);
    }
    assert forall|i: int| 0 <= i < t.notes.len() implies !s.folder_under(#[trigger] t.notes[i].folder_id, root) by {
        lemma_filter_elem(s.notes, s.note_kept(root), i);
    }
    if t.has_folder(root) {
        let i = choose|i: int| 0 <= i < t.folders.len() && #[trigger] t.folders[i].id == root;
        assert(!s.in_subtree(t.folders[i].id, root));
    }
    assert forall|f: i64| s.has_folder(f) && !s.in_subtree(f, root) implies #[trigger] t.has_folder(f) by {
        let m = choose|m: int| 0 <= m < s.folders.len() && #[trigger] s.folders[m].id == f;
        s.folders.lemma_filter_contains(fk, m);
        let q = choose|q: int| 0 <= q < t.folders.len() && t.folders[q] == s.folders[m];
        assert(t.folders[q].id == f);
    }
}

/// Deleting a folder with no child folders and no notes removes that one
/// row and changes nothing else.
pub proof fn deleting_empty_folder_removes_only_it(s: NotebookV, root: i64)
    requires
        s.valid(),
        forall|i: int| 0 <= i < s.folders.len() ==> #[trigger] s.folders[i].parent_id != Some(root),
        forall|i: int| 0 <= i < s.notes.len() ==> #[trigger] s.notes[i].folder_id != Some(root),
    ensures
        s.delete_folder(root) == (NotebookV {
            folders: s.folders.filter(|f: crate::model::FolderV| f.id != root),
            ..s
        }),
{
    let t = s.delete_folder(root);
    assert forall|x: i64| s.has_folder(x) implies s.in_subtree(x, root) == (x == root) by {
        lemma_subtree_children(s, x, root);
    }
    assert forall|i: int| 0 <= i < s.folders.len() implies (s.folder_kept(root))(#[trigger] s.folders[i]) == (|f: crate::model::FolderV| f.id != root)(s.folders[i]) by {
        assert(s.has_folder(s.folders[i].id));
    }
    lemma_filter_agree(s.folders, s.folder_kept(root), |f: crate::model::FolderV| f.id != root);
    assert forall|i: int| 0 <= i < s.notes.len() implies (s.note_kept(root))(#[trigger] s.notes[i]) by {
        assert(s.notes[i].id < s.next_note_id);
        if let Some(f) = s.notes[i].folder_id {
            assert(s.has_folder(f));
        }
    }
    lemma_filter_keeps_all(s.notes, s.note_kept(root));
    assert forall|l: (i64, i64)| s.links.contains(l) implies (s.link_kept(root))(l) by {
        if s.note_under(l.0, root) {
            let i = choose|i: int| 0 <= i < s.notes.len() && #[trigger] s.notes[i].id == l.0 && s.folder_under(s.notes[i].folder_id, root);
            assert(s.notes[i].id < s.next_note_id);
            let f = s.notes[i].folder_id->0;
            assert(s.has_folder(f));
        }
    }
    assert(t.links =~= s.links);
}

/// Deleting a note removes its associations but keeps the whole tag
/// vocabulary, including tags that no note uses any more.
pub proof fn deleting_note_keeps_vocabulary(s: NotebookV, id: i64)
    requires
        s.valid(),
    ensures
        s.delete_note(id).tag_names() == s.tag_names(),
        s.delete_note(id).tags_of(id).len() == 0,
        !s.delete_note(id).has_note(id),
{
    let t = s.delete_note(id);
    let p = t.tagged(id);
    assert forall|i: int| 0 <= i < t.tags.len() implies !p(#[trigger] t.tags[i]) by {}
    t.tags.lemma_filter_len(p);
    if t.tags.filter(p).len() > 0 {
        lemma_filter_elem(t.tags, p, 0);
    }
    if t.has_note(id) {
        let i = choose|i: int| 0 <= i < t.notes.len() && #[trigger] t.notes[i].id == id;
        lemma_filter_elem(s.notes, crate::model::note_other_than(id), i);
    }
}

/// Deleting a note that does not exist changes nothing.
pub proof fn deleting_missing_note_changes_nothing(s: NotebookV, id: i64)
    requires
        s.valid(),
        !s.has_note(id),
    ensures
        s.delete_note(id) == s,
{
    let p = crate::model::note_other_than(id);
    assert forall|i: int| 0 <= i < s.notes.len() implies p(#[trigger] s.notes[i]) by {}
    lemma_filter_keeps_all(s.notes, p);
    assert(s.links.filter(crate::model::link_other_than(id)) =~= s.links);
}

/// Deleting a folder that does not exist changes nothing.
pub proof fn deleting_missing_folder_changes_nothing(s: NotebookV, root: i64)
    requires
        s.valid(),
        !s.has_folder(root),
    ensures
        s.delete_folder(root) == s,
{
    assert forall|x: i64| s.has_folder(x) implies !s.in_subtree(x, root) by {
        if s.in_subtree(x, root) && x != root {
            lemma_subtree_bounds(s, x, root);
        }
    }
    assert forall|i: int| 0 <= i < s.folders.len() implies (s.folder_kept(root))(#[trigger] s.folders[i]) by {
        assert(s.has_folder(s.folders[i].id));
    }
    lemma_filter_keeps_all(s.folders, s.folder_kept(root));
    assert forall|i: int| 0 <= i < s.notes.len() implies (s.note_kept(root))(#[trigger] s.notes[i]) by {
        assert(s.notes[i].id < s.next_note_id);
        if let Some(f) = s.notes[i].folder_id {
            assert(s.has_folder(f));
        }
    }
    lemma_filter_keeps_all(s.notes, s.note_kept(root));
    assert forall|l: (i64, i64)| s.links.contains(l) implies (s.link_kept(root))(l) by {
        if s.note_under(l.0, root) {
            let i = choose|i: int| 0 <= i < s.notes.len() && #[trigger] s.notes[i].id == l.0 && s.folder_under(s.notes[i].folder_id, root);
            assert(s.notes[i].id < s.next_note_id);
            let f = s.notes[i].folder_id->0;
            assert(s.has_folder(f));
        }
    }
    assert(s.delete_folder(root).links =~= s.links);
}

/// Creating a note and then updating it with the very same values changes
/// nothing, and the listing shows the note with the values it was created
/// with: its tags are the distinct names it was given.
pub proof fn identical_update_after_create_changes_nothing(
    s: NotebookV,
    title: Seq<char>,
    content: Seq<char>,
    is_markdown: bool,
    folder_id: Option<i64>,
    names: Seq<Seq<char>>,
)
    requires
        s.valid(),
        s.folder_ok(folder_id),
        s.next_note_id < i64::MAX,
        s.tag_room(names.len() as int),
    ensures
        ({
            let id = s.next_note_id as i64;
            let s1 = s.add_note(title, content, is_markdown, folder_id, names);
            let s2 = s1.update_note(id, title, content, is_markdown, folder_id, names);
            let e = s2.listing()[s.notes.len() as int];
            &&& s2 == s1
            &&& s.notes.len() < s2.listing().len()
            &&& e.id == id && e.title == title && e.content == content
            &&& e.is_markdown == is_markdown && e.folder_id == folder_id
            &&& e.tags.to_set() == names.to_set()
            &&& e.tags.no_duplicates()
        }),
{
    let id = s.next_note_id as i64;
    let row = crate::model::NoteV { id, title, content, is_markdown, folder_id };
    let s0 = NotebookV { notes: s.notes.push(row), next_note_id: s.next_note_id + 1, ..s };
    let s1 = s.add_note(title, content, is_markdown, folder_id, names);
    assert(s1 == s0.set_tags(id, names));
    lemma_absorb(s.tags, s.next_tag_id, names);
    lemma_tags_read_back(s0, id, names);
    let inner = NotebookV {
        notes: s1.notes.map_values(
            |n: crate::model::NoteV|
                if n.id == id {
                    crate::model::NoteV { id, title, content, is_markdown, folder_id }
                } else {
                    n
                },
        ),
        ..s1
    };
    assert forall|i: int| 0 <= i < s.notes.len() implies #[trigger] s.notes[i].id != id by {
        assert(s.notes[i].id < s.next_note_id);
    }
    assert(inner.notes =~= s1.notes);
    assert(inner == s1);
    lemma_absorb_present(s1.tags, s1.next_tag_id, names);
    let s2 = s1.set_tags(id, names);
    assert(s2.links =~= s1.links);
    assert(s2 == s1);
}

} // verus!
