//! Checks on stored rows before they become a store.
use crate::model::{ids_increasing, next_after};
use crate::rows::{Folder, NoteRecord, Preference, Tag};
use vstd::prelude::*;

verus! {

/// Whether `ids` grow strictly from one row to the next.
pub fn ids_ascending(ids: &Vec<i64>) -> (r: bool)
    ensures
        r == ids_increasing(ids@),
{
    let n = ids.len();
    if n == 0 {
        return true;
    }
    let mut k: usize = 1;
    while k < n
        invariant
            n == ids@.len(),
            1 <= k <= n,
            ids_increasing(ids@.take(k as int)),
        decreases n - k,
    {
        if ids[k - 1] >= ids[k] {
            assert(ids@[k - 1] >= ids@[k as int]);
            return false;
        }
        proof {
            let t = ids@.take(k + 1);
            assert forall|i: int, j: int| 0 <= i < j < k + 1 implies #[trigger] t[i] < #[trigger] t[j] by {
                if j < k {
                    assert(ids@.take(k as int)[i] < ids@.take(k as int)[j]);
                } else if i < k - 1 {
                    assert(ids@.take(k as int)[i] < ids@.take(k as int)[k - 1]);
                }
            }
        }
        k += 1;
    }
    assert(ids@.take(n as int) =~= ids@);
    true
}

/// The identity after the last of `ids`, when it lies in `1..=i64::MAX`.
pub fn next_id(ids: &Vec<i64>) -> (r: Option<i64>)
    ensures
        r is Some <==> 1 <= next_after(ids@) <= i64::MAX,
        r is Some ==> r->0 == next_after(ids@),
{
    let n = ids.len();
    if n == 0 {
        Some(1)
    } else if ids[n - 1] < 0 || ids[n - 1] == i64::MAX {
        None
    } else {
        Some(ids[n - 1] + 1)
    }
}

/// Whether `v` holds `x`.
pub fn holds(v: &Vec<i64>, x: i64) -> (r: bool)
    ensures
        r == v@.contains(x),
{
    let mut i: usize = 0;
    while i < v.len()
        invariant
            i <= v@.len(),
            forall|j: int| 0 <= j < i ==> v@[j] != x,
        decreases v@.len() - i,
    {
        if v[i] == x {
            assert(v@[i as int] == x);
            return true;
        }
        i += 1;
    }
    false
}

/// The identities of some folder rows.
pub fn folder_id_list(rows: &Vec<Folder>) -> (r: Vec<i64>)
    ensures
        r@ == rows@.map_values(|f: Folder| f.id),
{
    let mut r: Vec<i64> = Vec::new();
    let mut i: usize = 0;
    while i < rows.len()
        invariant
            i <= rows@.len(),
            r@ == rows@.take(i as int).map_values(|f: Folder| f.id),
        decreases rows@.len() - i,
    {
        r.push(rows[i].id);
        i += 1;
        assert(r@ =~= rows@.take(i as int).map_values(|f: Folder| f.id));
    }
    assert(rows@.take(i as int) =~= rows@);
    r
}

/// The identities of some note rows.
pub fn note_id_list(rows: &Vec<NoteRecord>) -> (r: Vec<i64>)
    ensures
        r@ == rows@.map_values(|n: NoteRecord| n.id),
{
    let mut r: Vec<i64> = Vec::new();
    let mut i: usize = 0;
    while i < rows.len()
        invariant
            i <= rows@.len(),
            r@ == rows@.take(i as int).map_values(|n: NoteRecord| n.id),
        decreases rows@.len() - i,
    {
        r.push(rows[i].id);
        i += 1;
        assert(r@ =~= rows@.take(i as int).map_values(|n: NoteRecord| n.id));
    }
    assert(rows@.take(i as int) =~= rows@);
    r
}

/// The identities of some vocabulary rows.
pub fn tag_id_list(rows: &Vec<Tag>) -> (r: Vec<i64>)
    ensures
        r@ == rows@.map_values(|t: Tag| t.id),
{
    let mut r: Vec<i64> = Vec::new();
    let mut i: usize = 0;
    while i < rows.len()
        invariant
            i <= rows@.len(),
            r@ == rows@.take(i as int).map_values(|t: Tag| t.id),
        decreases rows@.len() - i,
    {
        r.push(rows[i].id);
        i += 1;
        assert(r@ =~= rows@.take(i as int).map_values(|t: Tag| t.id));
    }
    assert(rows@.take(i as int) =~= rows@);
    r
}

/// Whether every parent is an older folder among `ids`.
pub fn parents_known(rows: &Vec<Folder>, ids: &Vec<i64>) -> (r: bool)
    ensures
        r == forall|i: int|
            0 <= i < rows@.len() ==> (#[trigger] rows@[i].parent_id matches Some(p) ==> p
                < rows@[i].id && ids@.contains(p)),
{
    let mut i: usize = 0;
    while i < rows.len()
        invariant
            i <= rows@.len(),
            forall|j: int|
                0 <= j < i ==> (#[trigger] rows@[j].parent_id matches Some(p) ==> p < rows@[j].id
                    && ids@.contains(p)),
        decreases rows@.len() - i,
    {
        if let Some(p) = rows[i].parent_id {
            if p >= rows[i].id || !holds(ids, p) {
                return false;
            }
        }
        i += 1;
    }
    true
}

/// Whether every note's folder is among `ids`.
pub fn folders_known(rows: &Vec<NoteRecord>, ids: &Vec<i64>) -> (r: bool)
    ensures
        r == forall|i: int|
            0 <= i < rows@.len() ==> (#[trigger] rows@[i].folder_id matches Some(f) ==> ids@.contains(f)),
{
    let mut i: usize = 0;
    while i < rows.len()
        invariant
            i <= rows@.len(),
            forall|j: int| 0 <= j < i ==> (#[trigger] rows@[j].folder_id matches Some(f) ==> ids@.contains(f)),
        decreases rows@.len() - i,
    {
        if let Some(f) = rows[i].folder_id {
            if !holds(ids, f) {
                return false;
            }
        }
        i += 1;
    }
    true
}

/// Whether no two vocabulary rows share a name.
pub fn names_distinct(rows: &Vec<Tag>) -> (r: bool)
    ensures
        r == forall|i: int, j: int|
            0 <= i < j < rows@.len() ==> #[trigger] rows@[i].name@ != #[trigger] rows@[j].name@,
{
    let mut j: usize = 0;
    while j < rows.len()
        invariant
            j <= rows@.len(),
            forall|a: int, b: int| 0 <= a < b < j ==> #[trigger] rows@[a].name@ != #[trigger] rows@[b].name@,
        decreases rows@.len() - j,
    {
        let mut i: usize = 0;
        while i < j
            invariant
                i <= j < rows@.len(),
                forall|a: int, b: int| 0 <= a < b < j ==> #[trigger] rows@[a].name@ != #[trigger] rows@[b].name@,
                forall|a: int| 0 <= a < i ==> #[trigger] rows@[a].name@ != rows@[j as int].name@,
            decreases j - i,
        {
            if rows[i].name == rows[j].name {
                return false;
            }
            i += 1;
        }
        j += 1;
    }
    true
}

/// Whether no two preference rows share a key.
pub fn keys_distinct(rows: &Vec<Preference>) -> (r: bool)
    ensures
        r == forall|i: int, j: int|
            0 <= i < j < rows@.len() ==> #[trigger] rows@[i].key@ != #[trigger] rows@[j].key@,
{
    let mut j: usize = 0;
    while j < rows.len()
        invariant
            j <= rows@.len(),
            forall|a: int, b: int| 0 <= a < b < j ==> #[trigger] rows@[a].key@ != #[trigger] rows@[b].key@,
        decreases rows@.len() - j,
    {
        let mut i: usize = 0;
        while i < j
            invariant
                i <= j < rows@.len(),
                forall|a: int, b: int| 0 <= a < b < j ==> #[trigger] rows@[a].key@ != #[trigger] rows@[b].key@,
                forall|a: int| 0 <= a < i ==> #[trigger] rows@[a].key@ != rows@[j as int].key@,
            decreases j - i,
        {
            if rows[i].key == rows[j].key {
                return false;
            }
            i += 1;
        }
        j += 1;
    }
    true
}

/// Whether every association names a note among `notes` and a tag among
/// `tags`, and no association is stored twice.
pub fn links_sound(links: &Vec<(i64, i64)>, notes: &Vec<i64>, tags: &Vec<i64>) -> (r: bool)
    ensures
        r == ((forall|i: int|
            0 <= i < links@.len() ==> notes@.contains(#[trigger] links@[i].0) && tags@.contains(
                links@[i].1,
            )) && links@.no_duplicates()),
{
    let mut j: usize = 0;
    while j < links.len()
        invariant
            j <= links@.len(),
            forall|i: int|
                0 <= i < j ==> notes@.contains(#[trigger] links@[i].0) && tags@.contains(links@[i].1),
            forall|a: int, b: int| 0 <= a < b < j ==> links@[a] != links@[b],
        decreases links@.len() - j,
    {
        if !holds(notes, links[j].0) || !holds(tags, links[j].1) {
            return false;
        }
        let mut i: usize = 0;
        while i < j
            invariant
                i <= j < links@.len(),
                forall|a: int| 0 <= a < i ==> links@[a] != links@[j as int],
                forall|a: int, b: int| 0 <= a < b < j ==> links@[a] != links@[b],
                notes@.contains(links@[j as int].0) && tags@.contains(links@[j as int].1),
                forall|a: int|
                    0 <= a < j ==> notes@.contains(#[trigger] links@[a].0) && tags@.contains(links@[a].1),
            decreases j - i,
        {
            if links[i].0 == links[j].0 && links[i].1 == links[j].1 {
                assert(links@[i as int] == links@[j as int]);
                return false;
            }
            i += 1;
        }
        assert forall|a: int|
            0 <= a < j + 1 implies notes@.contains(#[trigger] links@[a].0) && tags@.contains(
                links@[a].1,
            ) by {}
        j += 1;
    }
    true
}

} // verus!
