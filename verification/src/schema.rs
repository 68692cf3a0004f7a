//! Reading the layout of an Apple Notes database: which columns of a join table link notes
//! to folders.
use vstd::prelude::*;

use crate::preview::to_uppercase;
use crate::preview::uppercase;
use crate::text::chars_of;
use crate::text::contains_chars;
use crate::text::contains_seq;
use crate::vault::string_views;

verus! {

/// Whether a column names folders: its upper-case name holds `FOLDER`.
pub open spec fn is_folder_column(c: Seq<char>) -> bool {
    contains_seq(uppercase(c), "FOLDER"@)
}

/// Whether a column names notes: its upper-case name holds `NOTE` and not `FOLDER`.
pub open spec fn is_note_column(c: Seq<char>) -> bool {
    contains_seq(uppercase(c), "NOTE"@) && !is_folder_column(c)
}

/// The first column from `i` on that names folders (`folders`) or notes.
pub open spec fn first_column(cols: Seq<Seq<char>>, folders: bool, i: int) -> Option<int>
    decreases cols.len() - i,
{
    if i < 0 || i >= cols.len() {
        None
    } else if (folders && is_folder_column(cols[i])) || (!folders && is_note_column(cols[i])) {
        Some(i)
    } else {
        first_column(cols, folders, i + 1)
    }
}

/// The columns of a join table that link notes to folders, when it has both: the first that
/// names folders and the first that names notes.
pub open spec fn join_columns_spec(cols: Seq<Seq<char>>) -> Option<(int, int)> {
    match (first_column(cols, true, 0), first_column(cols, false, 0)) {
        (Some(f), Some(n)) => Some((f, n)),
        _ => None,
    }
}

fn column_kinds(c: &str) -> (r: (bool, bool))
    ensures
        r == (is_folder_column(c@), is_note_column(c@)),
{
    let up = chars_of(to_uppercase(c).as_str());
    let folder = contains_chars(up.as_slice(), chars_of("FOLDER").as_slice());
    let note = contains_chars(up.as_slice(), chars_of("NOTE").as_slice()) && !folder;
    (folder, note)
}

/// The indices of the folder and note columns of a join table with columns `cols` (see
/// `join_columns_spec`).
pub fn join_columns(cols: &Vec<String>) -> (r: Option<(usize, usize)>)
    ensures
        match r {
            Some((f, n)) => join_columns_spec(string_views(cols@)) == Some((f as int, n as int)),
            None => join_columns_spec(string_views(cols@)) is None,
        },
{
    let ghost cv = string_views(cols@);
    let mut folder: Option<usize> = None;
    let mut note: Option<usize> = None;
    let mut i: usize = 0;
    while i < cols.len()
        invariant
            i <= cols@.len(),
            cv == string_views(cols@),
            folder is None ==> first_column(cv, true, 0) == first_column(cv, true, i as int),
            folder matches Some(f) ==> first_column(cv, true, 0) == Some(f as int),
            note is None ==> first_column(cv, false, 0) == first_column(cv, false, i as int),
            note matches Some(n) ==> first_column(cv, false, 0) == Some(n as int),
        decreases cols@.len() - i,
    {
        let (is_folder, is_note) = column_kinds(cols[i].as_str());
        proof {
            assert(cv[i as int] == cols@[i as int]@);
        }
        if folder.is_none() && is_folder {
            folder = Some(i);
        }
        if note.is_none() && is_note {
            note = Some(i);
        }
        i = i + 1;
    }
    match (folder, note) {
        (Some(f), Some(n)) => Some((f, n)),
        _ => None,
    }
}

} // verus!
