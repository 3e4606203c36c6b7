//! What is written out for a build: the link of each note in the index,
//! the index itself and the metadata file.

use crate::error::JustTextError;
use crate::meta::{not_later, rfc3339_of, Metadatum};
use crate::note::{has_core, href_of, of_other_file, title_of, Note};
use crate::runs::{lemma_run_len, lemma_run_len_unique, run_len};
use crate::template::{
    fields_of, list_page_of, render_error_text, render_rows, rows_of, Field,
};
use vstd::prelude::*;
use vstd::seq_lib::to_multiset_remove;
use vstd::string::StringExecFns;
use vstd::utf8::encode_utf8;

verus! {

/// A link of the index: where it leads and what it shows.
#[derive(Debug, Clone, PartialEq)]
pub struct Link {
    pub href: String,
    pub title: String,
}

/// What the template of the index is given of `link`: its target under
/// `href` and what it shows under `title`.
pub open spec fn row_of(link: Link) -> Seq<(Seq<char>, Seq<char>)> {
    seq![("href"@, link.href@), ("title"@, link.title@)]
}

/// The page of the index for `links`, in their order.
pub open spec fn index_of(template: Seq<char>, links: Seq<Link>) -> Option<Seq<char>> {
    list_page_of(template, "links"@, links.map_values(|link: Link| row_of(link)))
}

/// The page of the index for `links`, made from `template`: the template
/// is given the links, in their order, under `links`.
pub fn generate_index(template: &str, links: &Vec<Link>) -> (result: Result<
    String,
    JustTextError<'static>,
>)
    ensures
        match index_of(template@, links@) {
            Some(made) => result matches Ok(text) && text@ == made,
            None => result is Err,
        },
{
    let mut rows: Vec<Vec<Field>> = Vec::new();
    let mut i: usize = 0;
    while i < links.len()
        invariant
            i <= links.len(),
            rows@.len() == i,
            forall|k: int|
                0 <= k < i ==> fields_of((#[trigger] rows@[k])@) == row_of(
                    links@[k],
                ),
        decreases links.len() - i,
    {
        let mut row: Vec<Field> = Vec::new();
        row.push(("href".to_owned(), links[i].href.clone()));
        row.push(("title".to_owned(), links[i].title.clone()));
        proof {
            assert(fields_of(row@) =~= row_of(links@[i as int]));
        }
        rows.push(row);
        i = i + 1;
    }
    proof {
        assert(rows_of(rows@) =~= links@.map_values(|link: Link| row_of(link)));
    }
    match render_rows(template, "links", &rows) {
        Ok(page) => Ok(page),
        Err(error) => Err(JustTextError::from_string(render_error_text(&error))),
    }
}

/// The line of the metadata file for `metadatum`.
pub open spec fn line_of(metadatum: Metadatum) -> Seq<char> {
    metadatum.filename@ + " "@ + rfc3339_of(metadatum.created@.0, metadatum.created@.1)
}

/// The lines of `metadata`, in order, with a line feed between each two.
pub open spec fn metadata_text_of(metadata: Seq<Metadatum>) -> Seq<char>
    decreases metadata.len(),
{
    if metadata.len() == 0 {
        Seq::empty()
    } else if metadata.len() == 1 {
        line_of(metadata[0])
    } else {
        metadata_text_of(metadata.drop_last()) + "\n"@ + line_of(metadata.last())
    }
}

/// The text of the metadata file: one line for each note.
pub fn metadata_text(metadata: &Vec<Metadatum>) -> (text: String)
    ensures
        text@ == metadata_text_of(metadata@),
{
    let mut text = String::new();
    let mut i: usize = 0;
    while i < metadata.len()
        invariant
            i <= metadata.len(),
            text@ == metadata_text_of(metadata@.take(i as int)),
        decreases metadata.len() - i,
    {
        proof {
            assert(metadata@.take(i + 1).drop_last() =~= metadata@.take(i as int));
        }
        if i > 0 {
            text.append("\n");
        }
        text.append(metadata[i].to_string().as_str());
        i = i + 1;
    }
    proof {
        assert(metadata@.take(i as int) =~= metadata@);
    }
    text
}

/// The class of the notes that were first seen not later than `stamp`.
pub open spec fn seen_by(stamp: (i64, u32)) -> spec_fn(Note) -> bool {
    |note: Note| not_later(note.created@, stamp)
}

/// Whether each of `notes` was first seen not later than those behind it.
pub open spec fn in_order(notes: Seq<Note>) -> bool {
    forall|i: int, j: int|
        0 <= i < j < notes.len() ==> not_later(
            (#[trigger] notes[i]).created@,
            (#[trigger] notes[j]).created@,
        )
}

/// `sorted` with `note` behind the last of its notes that was first seen
/// not later than `note`.
pub open spec fn inserted(sorted: Seq<Note>, note: Note) -> Seq<Note> {
    sorted.insert(run_len(sorted, 0, seen_by(note.created@)) as int, note)
}

/// `notes` in the order in which they were first seen; notes that were
/// first seen at the same instant keep the order they had.
pub open spec fn sorted_by_created(notes: Seq<Note>) -> Seq<Note>
    decreases notes.len(),
{
    if notes.len() == 0 {
        notes
    } else {
        inserted(sorted_by_created(notes.drop_last()), notes.last())
    }
}

/// A note that is put into notes in order leaves them in order, and adds
/// itself to them and nothing else.
pub proof fn lemma_inserted(sorted: Seq<Note>, note: Note)
    requires
        in_order(sorted),
    ensures
        in_order(inserted(sorted, note)),
        inserted(sorted, note).len() == sorted.len() + 1,
        inserted(sorted, note).to_multiset() == sorted.to_multiset().insert(note),
{
    let at = run_len(sorted, 0, seen_by(note.created@)) as int;
    let after = inserted(sorted, note);
    lemma_run_len(sorted, 0, seen_by(note.created@));
    assert forall|i: int, j: int| 0 <= i < j < after.len() implies not_later(
        (#[trigger] after[i]).created@,
        (#[trigger] after[j]).created@,
    ) by {
        if j == at {
            assert(after[i] == sorted[i]);
            assert(seen_by(note.created@)(sorted[i]));
        } else if i == at {
            assert(after[j] == sorted[j - 1]);
            assert(!seen_by(note.created@)(sorted[at]));
            if j - 1 > at {
                assert(not_later(sorted[at].created@, sorted[j - 1].created@));
            }
        } else {
            let before_i = if i < at {
                i
            } else {
                i - 1
            };
            let before_j = if j < at {
                j
            } else {
                j - 1
            };
            assert(after[i] == sorted[before_i]);
            assert(after[j] == sorted[before_j]);
        }
    }
    assert(after.remove(at) =~= sorted);
    to_multiset_remove(after, at);
    assert(after.to_multiset().count(note) > 0) by {
        assert(after[at] == note);
        assert(after.contains(note));
        after.to_multiset_ensures();
    }
    assert(after.to_multiset() =~= sorted.to_multiset().insert(note));
}

/// Sorted notes are in order, and they are the notes that were given: as
/// many of each, and none else.
pub proof fn lemma_sorted_by_created(notes: Seq<Note>)
    ensures
        in_order(sorted_by_created(notes)),
        sorted_by_created(notes).len() == notes.len(),
        sorted_by_created(notes).to_multiset() == notes.to_multiset(),
    decreases notes.len(),
{
    if notes.len() > 0 {
        lemma_sorted_by_created(notes.drop_last());
        lemma_inserted(sorted_by_created(notes.drop_last()), notes.last());
        assert(notes.drop_last().push(notes.last()) =~= notes);
        notes.drop_last().to_multiset_ensures();
    }
}

/// Notes that are in order stay as they are: the sort moves no note past
/// one that was first seen at the same instant.
pub proof fn lemma_sorted_keeps_order(notes: Seq<Note>)
    requires
        in_order(notes),
    ensures
        sorted_by_created(notes) == notes,
    decreases notes.len(),
{
    if notes.len() > 0 {
        let front = notes.drop_last();
        assert forall|i: int, j: int| 0 <= i < j < front.len() implies not_later(
            (#[trigger] front[i]).created@,
            (#[trigger] front[j]).created@,
        ) by {
            assert(front[i] == notes[i]);
            assert(front[j] == notes[j]);
        }
        lemma_sorted_keeps_order(front);
        assert forall|i: int| 0 <= i < front.len() implies seen_by(notes.last().created@)(
            #[trigger] front[i],
        ) by {
            assert(front[i] == notes[i]);
            assert(notes.last() == notes[notes.len() - 1]);
        }
        lemma_run_len_unique(front, 0, front.len() as int, seen_by(notes.last().created@));
        assert(front.insert(front.len() as int, notes.last()) =~= notes);
    }
}

/// Puts `notes` in the order in which they were first seen. Notes that
/// were first seen at the same instant keep their order.
pub fn sort_by_created(notes: &mut Vec<Note>)
    ensures
        final(notes)@ == sorted_by_created(old(notes)@),
        in_order(final(notes)@),
        final(notes)@.to_multiset() == old(notes)@.to_multiset(),
{
    let ghost given = notes@;
    let mut i: usize = 0;
    assert(given.take(0) =~= Seq::<Note>::empty());
    while i < notes.len()
        invariant
            i <= notes.len(),
            given == old(notes)@,
            notes@.len() == given.len(),
            notes@.take(i as int) == sorted_by_created(given.take(i as int)),
            notes@.skip(i as int) == given.skip(i as int),
        decreases notes.len() - i,
    {
        let ghost sorted = notes@.take(i as int);
        let ghost before = notes@;
        let note = notes.remove(i);
        assert(note == given[i as int]) by {
            assert(given.skip(i as int)[0] == given[i as int]);
        }
        let mut at: usize = 0;
        while at < i && notes[at].created.not_later_than(&note.created)
            invariant
                at <= i < notes.len() + 1,
                notes@.take(i as int) == sorted,
                forall|k: int|
                    0 <= k < at ==> seen_by(note.created@)(#[trigger] sorted[k]),
            decreases i - at,
        {
            assert(sorted[at as int] == notes@[at as int]);
            at = at + 1;
        }
        proof {
            if at < i {
                assert(sorted[at as int] == notes@[at as int]);
            }
            lemma_run_len_unique(sorted, 0, at as int, seen_by(note.created@));
            assert(given.take(i + 1).drop_last() =~= given.take(i as int));
            assert(given.take(i + 1).last() == note);
        }
        let ghost rest = notes@;
        notes.insert(at, note);
        proof {
            assert(notes@.take(i + 1) =~= sorted.insert(at as int, note));
            let left = notes@.skip(i + 1);
            let right = given.skip(i + 1);
            assert forall|k: int| 0 <= k < left.len() implies #[trigger] left[k] == right[k] by {
                assert(notes@[i + 1 + k] == rest[i + k]);
                assert(rest[i + k] == before[i + k + 1]);
                assert(before[i + k + 1] == before.skip(i as int)[k + 1]);
                assert(given[i + k + 1] == given.skip(i as int)[k + 1]);
            }
            assert(left =~= right);
        }
        i = i + 1;
    }
    proof {
        assert(notes@.take(i as int) =~= notes@);
        assert(given.take(i as int) =~= given);
        lemma_sorted_by_created(given);
    }
}

/// Reconciles each of `notes` with `metadata`: a note that `metadata`
/// know takes the instant they give for it.
pub fn reconcile_all(notes: &mut Vec<Note>, metadata: &Vec<Metadatum>)
    ensures
        final(notes)@.len() == old(notes)@.len(),
        forall|i: int|
            0 <= i < old(notes)@.len() ==> reconciled(
                old(notes)@[i],
                metadata@,
                #[trigger] final(notes)@[i],
            ),
{
    let ghost given = notes@;
    let mut i: usize = 0;
    while i < notes.len()
        invariant
            i <= notes.len(),
            notes@.len() == given.len(),
            given == old(notes)@,
            forall|k: int| 0 <= k < i ==> reconciled(given[k], metadata@, #[trigger] notes@[k]),
            forall|k: int| i <= k < notes@.len() ==> #[trigger] notes@[k] == given[k],
        decreases notes.len() - i,
    {
        notes[i].reconcile(metadata);
        i = i + 1;
    }
}

/// Whether `after` is `before` reconciled with `metadata`.
pub open spec fn reconciled(before: Note, metadata: Seq<Metadatum>, after: Note) -> bool {
    let known = run_len(metadata, 0, of_other_file(before.filename@)) as int;
    &&& after.filename@ == before.filename@
    &&& after.content@ == before.content@
    &&& after.created == if known < metadata.len() {
        metadata[known].created
    } else {
        before.created
    }
}

/// What the metadata file keeps of `notes`, in their order.
pub fn metadata_of(notes: &Vec<Note>) -> (metadata: Vec<Metadatum>)
    ensures
        metadata@.len() == notes@.len(),
        forall|i: int|
            0 <= i < notes@.len() ==> (#[trigger] metadata@[i]).filename@ == notes@[i].filename@
                && metadata@[i].created == notes@[i].created,
{
    let mut metadata: Vec<Metadatum> = Vec::new();
    let mut i: usize = 0;
    while i < notes.len()
        invariant
            i <= notes.len(),
            metadata@.len() == i,
            forall|k: int|
                0 <= k < i ==> (#[trigger] metadata@[k]).filename@ == notes@[k].filename@
                    && metadata@[k].created == notes@[k].created,
        decreases notes.len() - i,
    {
        metadata.push(notes[i].to_metadatum());
        i = i + 1;
    }
    metadata
}

/// Whether each of `notes` has a file name with a core.
pub open spec fn all_have_cores(notes: Seq<Note>) -> bool {
    forall|i: int| 0 <= i < notes.len() ==> has_core(encode_utf8((#[trigger] notes[i]).filename@))
}

/// The links of the index to `notes`, in their order.
pub fn links_of(notes: &Vec<Note>) -> (links: Vec<Link>)
    requires
        all_have_cores(notes@),
    ensures
        links@.len() == notes@.len(),
        forall|i: int|
            0 <= i < notes@.len() ==> (#[trigger] links@[i]).title@ == title_of(
                encode_utf8(notes@[i].filename@),
            ) && links@[i].href@ == href_of(encode_utf8(notes@[i].filename@)),
{
    let mut links: Vec<Link> = Vec::new();
    let mut i: usize = 0;
    while i < notes.len()
        invariant
            i <= notes.len(),
            all_have_cores(notes@),
            links@.len() == i,
            forall|k: int|
                0 <= k < i ==> (#[trigger] links@[k]).title@ == title_of(
                    encode_utf8(notes@[k].filename@),
                ) && links@[k].href@ == href_of(encode_utf8(notes@[k].filename@)),
        decreases notes.len() - i,
    {
        links.push(notes[i].generate_link());
        i = i + 1;
    }
    links
}

} // verus!
