//! The mathematical model of the note store: notes as records of plain
//! values, and the transitions that the store's operations perform.

use vstd::prelude::*;

verus! {

/// A note, abstractly: its id as an integer and its texts as character
/// sequences.
#[verifier::ext_equal]
pub ghost struct NoteModel {
    pub id: int,
    pub title: Seq<char>,
    pub content: Seq<char>,
}

/// The whole store, abstractly: the notes in order, and the next id the
/// allocator will hand out.
#[verifier::ext_equal]
pub ghost struct StoreModel {
    pub notes: Seq<NoteModel>,
    pub next_id: int,
}

/// The title every freshly added note starts with.
pub open spec fn placeholder_title() -> Seq<char> {
    seq!['N', 'e', 'w', ' ', 'N', 'o', 't', 'e']
}

/// Every id in the sequence lies below `bound`.
pub open spec fn ids_below(s: Seq<NoteModel>, bound: int) -> bool {
    forall|i: int| 0 <= i < s.len() ==> s[i].id < bound
}

/// The ids are pairwise distinct.
pub open spec fn ids_distinct(s: Seq<NoteModel>) -> bool {
    forall|i: int, j: int| 0 <= i < j < s.len() ==> s[i].id != s[j].id
}

/// The ids grow strictly along the sequence.
pub open spec fn ids_increasing(s: Seq<NoteModel>) -> bool {
    forall|i: int, j: int| 0 <= i < j < s.len() ==> s[i].id < s[j].id
}

/// The largest id in a nonempty sequence.
pub open spec fn max_id(s: Seq<NoteModel>) -> int
    decreases s.len(),
{
    if s.len() <= 1 {
        s[0].id
    } else if s.last().id >= max_id(s.drop_last()) {
        s.last().id
    } else {
        max_id(s.drop_last())
    }
}

/// The index of the first note with the given id, or -1 if none has it.
pub open spec fn first_index_with(s: Seq<NoteModel>, id: int) -> int
    decreases s.len(),
{
    if s.len() == 0 {
        -1
    } else if s[0].id == id {
        0
    } else if first_index_with(s.drop_first(), id) == -1 {
        -1
    } else {
        first_index_with(s.drop_first(), id) + 1
    }
}

/// Adding a note: a fresh record with id `next_id`, the placeholder title
/// and empty content is appended, and the allocator moves on.
pub open spec fn spec_add(s: StoreModel) -> StoreModel {
    StoreModel {
        notes: s.notes.push(
            NoteModel { id: s.next_id, title: placeholder_title(), content: Seq::empty() },
        ),
        next_id: s.next_id + 1,
    }
}

/// The sequence with every note carrying the given id removed; the
/// survivors keep their order.
pub open spec fn remove_with_id(s: Seq<NoteModel>, id: int) -> Seq<NoteModel>
    decreases s.len(),
{
    if s.len() == 0 {
        s
    } else if s.last().id == id {
        remove_with_id(s.drop_last(), id)
    } else {
        remove_with_id(s.drop_last(), id).push(s.last())
    }
}

/// Deleting an id: every note carrying it is removed; the survivors keep
/// their order. The allocator does not move back.
pub open spec fn spec_delete(s: StoreModel, id: int) -> StoreModel {
    StoreModel { notes: remove_with_id(s.notes, id), next_id: s.next_id }
}

/// Replacing the title of the first note with the given id; a store
/// without that id is left as it is.
pub open spec fn spec_update_title(s: StoreModel, id: int, title: Seq<char>) -> StoreModel {
    let k = first_index_with(s.notes, id);
    if k == -1 {
        s
    } else {
        StoreModel {
            notes: s.notes.update(
                k,
                NoteModel { id: s.notes[k].id, title: title, content: s.notes[k].content },
            ),
            next_id: s.next_id,
        }
    }
}

/// Replacing the content of the first note with the given id; a store
/// without that id is left as it is.
pub open spec fn spec_update_content(s: StoreModel, id: int, content: Seq<char>) -> StoreModel {
    let k = first_index_with(s.notes, id);
    if k == -1 {
        s
    } else {
        StoreModel {
            notes: s.notes.update(
                k,
                NoteModel { id: s.notes[k].id, title: s.notes[k].title, content: content },
            ),
            next_id: s.next_id,
        }
    }
}

/// The allocator value recovered from loaded notes: one past the largest
/// id, or 0 when nothing was loaded.
pub open spec fn recovered_next_id(notes: Seq<NoteModel>) -> int {
    if notes.len() == 0 {
        0
    } else {
        max_id(notes) + 1
    }
}

/// When `s[k]` carries the id and no earlier note does, `k` is the first
/// index with it.
pub proof fn lemma_first_index_found(s: Seq<NoteModel>, id: int, k: int)
    requires
        0 <= k < s.len(),
        s[k].id == id,
        forall|j: int| 0 <= j < k ==> s[j].id != id,
    ensures
        first_index_with(s, id) == k,
    decreases k,
{
    if k > 0 {
        lemma_first_index_found(s.drop_first(), id, k - 1);
    }
}

/// When no note carries the id, there is no first index with it.
pub proof fn lemma_first_index_none(s: Seq<NoteModel>, id: int)
    requires
        forall|j: int| 0 <= j < s.len() ==> s[j].id != id,
    ensures
        first_index_with(s, id) == -1,
    decreases s.len(),
{
    if s.len() > 0 {
        lemma_first_index_none(s.drop_first(), id);
    }
}

/// Law: adding a note keeps the ids strictly increasing and below the
/// allocator. Since a fresh store satisfies both trivially, every
/// sequence of adds yields strictly increasing — hence unique — ids.
pub proof fn lemma_add_keeps_ids_increasing(s: StoreModel)
    requires
        ids_below(s.notes, s.next_id),
        ids_increasing(s.notes),
    ensures
        ids_below(spec_add(s).notes, spec_add(s).next_id),
        ids_increasing(spec_add(s).notes),
        ids_distinct(spec_add(s).notes),
{
    let s2 = spec_add(s);
    assert forall|i: int, j: int| 0 <= i < j < s2.notes.len() implies s2.notes[i].id
        < s2.notes[j].id by {
        if j == s.notes.len() {
            assert(s2.notes[i].id == s.notes[i].id);
        }
    }
    lemma_increasing_ids_distinct(s2.notes);
}

/// Strictly increasing ids are pairwise distinct.
pub proof fn lemma_increasing_ids_distinct(s: Seq<NoteModel>)
    requires
        ids_increasing(s),
    ensures
        ids_distinct(s),
{
}

/// Removing an id that no note carries removes nothing.
proof fn lemma_remove_absent(s: Seq<NoteModel>, id: int)
    requires
        forall|i: int| 0 <= i < s.len() ==> s[i].id != id,
    ensures
        remove_with_id(s, id) == s,
    decreases s.len(),
{
    if s.len() > 0 {
        lemma_remove_absent(s.drop_last(), id);
        assert(remove_with_id(s, id) =~= s);
    } else {
        assert(remove_with_id(s, id) =~= s);
    }
}

/// Law: deleting an id that no note carries leaves the store unchanged.
pub proof fn lemma_delete_missing_id_is_noop(s: StoreModel, id: int)
    requires
        forall|i: int| 0 <= i < s.notes.len() ==> s.notes[i].id != id,
    ensures
        spec_delete(s, id) == s,
{
    lemma_remove_absent(s.notes, id);
    assert(spec_delete(s, id) =~= s);
}

/// Law: updating the title or the content at an id that no note carries
/// leaves the store unchanged.
pub proof fn lemma_update_missing_id_is_noop(
    s: StoreModel,
    id: int,
    title: Seq<char>,
    content: Seq<char>,
)
    requires
        forall|i: int| 0 <= i < s.notes.len() ==> s.notes[i].id != id,
    ensures
        spec_update_title(s, id, title) == s,
        spec_update_content(s, id, content) == s,
{
    lemma_first_index_none(s.notes, id);
}

/// Law: the allocator recovered after a load lies strictly above every
/// loaded id, so notes added later cannot collide with loaded ones.
pub proof fn lemma_recovered_next_id_is_above(s: Seq<NoteModel>)
    ensures
        ids_below(s, recovered_next_id(s)),
{
    if s.len() > 0 {
        lemma_max_id_is_bound(s);
    }
}

/// `max_id` names an id of the sequence and bounds all of them.
proof fn lemma_max_id_is_bound(s: Seq<NoteModel>)
    requires
        s.len() > 0,
    ensures
        forall|i: int| 0 <= i < s.len() ==> s[i].id <= max_id(s),
        exists|i: int| 0 <= i < s.len() && s[i].id == max_id(s),
    decreases s.len(),
{
    if s.len() == 1 {
        assert(s[0].id == max_id(s));
    } else {
        lemma_max_id_is_bound(s.drop_last());
        assert forall|i: int| 0 <= i < s.len() implies s[i].id <= max_id(s) by {
            if i < s.len() - 1 {
                assert(s.drop_last()[i] == s[i]);
            }
        }
        if s.last().id >= max_id(s.drop_last()) {
            assert(s[s.len() - 1].id == max_id(s));
        } else {
            let j = choose|j: int|
                0 <= j < s.drop_last().len() && s.drop_last()[j].id == max_id(s.drop_last());
            assert(s[j].id == max_id(s));
        }
    }
}


} // verus!
