//! The Apple Notes tree: folders and notes read from the notes database, arranged for
//! browsing.
use vstd::prelude::*;

use crate::exporter::row_view;
use crate::exporter::row_views;
use crate::exporter::FolderRow;
use crate::text::chars_of;
use crate::text::decimal;
use crate::text::extend_chars;
use crate::text::push_decimal;
use crate::text::string_of;
use crate::tree::kind_count;
use crate::tree::kind_count_seq;
use crate::tree::lemma_count_concat;
use crate::tree::lemma_count_single;
use crate::tree::leaf;
use crate::tree::node_view;
use crate::tree::node_views;
use crate::tree::lemma_node_views;
use crate::tree::sorted_view;
use crate::tree::NodeKind;
use crate::tree::NodeView;
use crate::tree::TreeNode;

verus! {

/// A note row of the notes database.
pub struct NoteRecord {
    pub pk: i64,
    pub title: String,
    pub folder_pk: Option<i64>,
    /// Modification time in microseconds since 2001-01-01, when the database has it.
    pub modified_date: Option<i64>,
    pub is_pinned: bool,
}

/// The decimal form of a signed number (`"{}"` formatting).
pub open spec fn signed_decimal(n: int) -> Seq<char> {
    if n < 0 {
        "-"@ + decimal((-n) as nat)
    } else {
        decimal(n as nat)
    }
}

fn push_signed(out: &mut Vec<char>, n: i64)
    ensures
        final(out)@ == old(out)@ + signed_decimal(n as int),
{
    if n < 0 {
        out.push('-');
        let m: u64 = ((-(n + 1)) as u64) + 1;
        push_decimal(out, m);
        proof {
            reveal_strlit("-");
        }
    } else {
        push_decimal(out, n as u64);
    }
}

/// The address of an Apple Notes folder.
pub open spec fn folder_address(pk: i64) -> Seq<char> {
    "apple-notes://folder/"@ + signed_decimal(pk as int)
}

/// The address of an Apple Notes note.
pub open spec fn note_address(pk: i64) -> Seq<char> {
    "apple-notes://note/"@ + signed_decimal(pk as int)
}

fn address(prefix: &str, pk: i64) -> (r: String)
    ensures
        r@ == prefix@ + signed_decimal(pk as int),
{
    let mut out = chars_of(prefix);
    push_signed(&mut out, pk);
    string_of(out.as_slice())
}

/// The tree node of a note.
pub open spec fn note_leaf(n: NoteRecord) -> NodeView {
    NodeView {
        name: n.title@,
        path: note_address(n.pk),
        kind: NodeKind::Note,
        children: Seq::empty(),
        expanded: false,
        modified_date: n.modified_date,
        is_pinned: n.is_pinned,
    }
}

/// The notes of folder `pk`, in order.
pub open spec fn notes_in(notes: Seq<NoteRecord>, pk: i64) -> Seq<NodeView>
    decreases notes.len(),
{
    if notes.len() == 0 {
        Seq::empty()
    } else {
        let rest = notes_in(notes.drop_last(), pk);
        if notes.last().folder_pk == Some(pk) {
            rest.push(note_leaf(notes.last()))
        } else {
            rest
        }
    }
}

/// The index of the folder row with key `pk`.
pub open spec fn index_of_pk(rows: Seq<(i64, Seq<char>, Option<i64>)>, pk: i64) -> Option<int>
    decreases rows.len(),
{
    if rows.len() == 0 {
        None
    } else if rows.last().0 == pk {
        Some(rows.len() - 1)
    } else {
        index_of_pk(rows.drop_last(), pk)
    }
}

/// The index of the folder row that is the parent of row `j`, if its parent is a folder row.
pub open spec fn parent_index(rows: Seq<(i64, Seq<char>, Option<i64>)>, j: int) -> Option<int> {
    match rows[j].2 {
        None => None,
        Some(p) => index_of_pk(rows, p),
    }
}

/// Whether following parent links from row `a`, at most `fuel` times, reaches row `j`.
pub open spec fn reaches(rows: Seq<(i64, Seq<char>, Option<i64>)>, a: int, j: int, fuel: nat) -> bool
    decreases fuel,
{
    if fuel == 0 {
        false
    } else {
        match parent_index(rows, a) {
            None => false,
            Some(p) => p == j || reaches(rows, p, j, (fuel - 1) as nat),
        }
    }
}

/// Whether row `j` is its own ancestor: its parent links run in a loop back to it.
pub open spec fn on_cycle(rows: Seq<(i64, Seq<char>, Option<i64>)>, j: int) -> bool {
    reaches(rows, j, j, rows.len() as nat)
}

/// Whether row `j` goes under its parent when the rows are taken in order and a folder can only
/// take children while it is not itself under another: a parent row that comes later always
/// can, an earlier one only if it did not go under its own parent.
pub open spec fn placed_in_order(rows: Seq<(i64, Seq<char>, Option<i64>)>, j: int) -> bool
    decreases j,
{
    match parent_index(rows, j) {
        None => false,
        Some(p) => if 0 <= p < j {
            !placed_in_order(rows, p)
        } else {
            true
        },
    }
}

/// Whether folder row `j` is nested under its parent: its parent is a folder row and, where the
/// parent links loop back to `j`, the rows taken in order put it there (so a loop of folders
/// still shows, with the loop broken).
pub open spec fn nests_under(rows: Seq<(i64, Seq<char>, Option<i64>)>, j: int) -> bool {
    parent_index(rows, j) is Some && (!on_cycle(rows, j) || placed_in_order(rows, j))
}

/// Folder `i` with its notes, then the folders whose parent it is, each nested the same way,
/// down to `fuel` levels (a bound no real nesting reaches: `fuel` starts at the number of
/// rows).
pub open spec fn folder_tree(
    rows: Seq<(i64, Seq<char>, Option<i64>)>,
    notes: Seq<NoteRecord>,
    i: int,
    fuel: nat,
) -> NodeView
    decreases fuel, 1int, 0int,
{
    NodeView {
        children: notes_in(notes, rows[i].0) + subfolders(rows, notes, i, rows.len() as int, fuel),
        ..leaf(rows[i].1, folder_address(rows[i].0), NodeKind::Folder)
    }
}

/// The folders among the first `k` rows nested under folder `t`, each as its own tree with
/// `fuel - 1` levels left (none when no level is left).
pub open spec fn subfolders(
    rows: Seq<(i64, Seq<char>, Option<i64>)>,
    notes: Seq<NoteRecord>,
    t: int,
    k: int,
    fuel: nat,
) -> Seq<NodeView>
    decreases fuel, 0int, k,
{
    if k <= 0 || fuel == 0 {
        Seq::empty()
    } else {
        let rest = subfolders(rows, notes, t, k - 1, fuel);
        if k - 1 < rows.len() && rows[k - 1].2 == Some(rows[t].0) && nests_under(rows, k - 1) {
            rest.push(folder_tree(rows, notes, k - 1, (fuel - 1) as nat))
        } else {
            rest
        }
    }
}

/// The top-level folder `t` (one not nested under a parent) with everything nested under it.
pub open spec fn top_folder(rows: Seq<(i64, Seq<char>, Option<i64>)>, notes: Seq<NoteRecord>, t: int) -> NodeView {
    folder_tree(rows, notes, t, rows.len() as nat)
}

/// The top-level folders among the first `k` rows that hold at least one note, at any depth.
pub open spec fn top_folders(rows: Seq<(i64, Seq<char>, Option<i64>)>, notes: Seq<NoteRecord>, k: int) -> Seq<
    NodeView,
>
    decreases k,
{
    if k <= 0 {
        Seq::empty()
    } else {
        let rest = top_folders(rows, notes, k - 1);
        if k - 1 < rows.len() && !nests_under(rows, k - 1) && kind_count(top_folder(rows, notes, k - 1), NodeKind::Note) > 0 {
            rest.push(top_folder(rows, notes, k - 1))
        } else {
            rest
        }
    }
}

/// The tree of the rows before arranging: an expanded root `Apple Notes` holding the
/// top-level folders that hold notes.
pub open spec fn notes_tree_unsorted(rows: Seq<(i64, Seq<char>, Option<i64>)>, notes: Seq<NoteRecord>) -> NodeView {
    NodeView {
        children: top_folders(rows, notes, rows.len() as int),
        expanded: true,
        ..leaf("Apple Notes"@, Seq::empty(), NodeKind::Folder)
    }
}

fn note_node(n: &NoteRecord) -> (r: TreeNode)
    ensures
        r@ == note_leaf(*n),
{
    let mut node = TreeNode::new_note(string_of(chars_of(n.title.as_str()).as_slice()), address("apple-notes://note/", n.pk));
    node.modified_date = n.modified_date;
    node.is_pinned = n.is_pinned;
    node
}

fn push_child(node: &mut TreeNode, c: TreeNode)
    ensures
        final(node)@ == (NodeView { children: old(node)@.children.push(c@), ..old(node)@ }),
{
    let ghost before = node.children@;
    node.children.push(c);
    proof {
        lemma_node_views(before);
        lemma_node_views(node.children@);
        assert(node_views(node.children@) =~= node_views(before).push(node_view(c)));
    }
}

/// Adds the notes of folder `pk` to `node`; tells whether there was one.
fn add_notes(node: &mut TreeNode, notes: &Vec<NoteRecord>, pk: i64) -> (any: bool)
    ensures
        final(node)@ == (NodeView { children: old(node)@.children + notes_in(notes@, pk), ..old(node)@ }),
        any == (notes_in(notes@, pk).len() > 0),
{
    let ghost start = node@;
    let mut any = false;
    let mut i: usize = 0;
    proof {
        assert(notes@.take(0) =~= Seq::<NoteRecord>::empty());
        assert(start.children + notes_in(Seq::<NoteRecord>::empty(), pk) =~= start.children);
    }
    while i < notes.len()
        invariant
            i <= notes@.len(),
            node@ == (NodeView { children: start.children + notes_in(notes@.take(i as int), pk), ..start }),
            any == (notes_in(notes@.take(i as int), pk).len() > 0),
        decreases notes@.len() - i,
    {
        proof {
            assert(notes@.take(i + 1).drop_last() =~= notes@.take(i as int));
            assert(notes@.take(i + 1).last() == notes@[i as int]);
        }
        if notes[i].folder_pk == Some(pk) {
            let nn = note_node(&notes[i]);
            push_child(node, nn);
            any = true;
            proof {
                assert(start.children + notes_in(notes@.take(i as int), pk).push(note_leaf(notes@[i as int]))
                    =~= (start.children + notes_in(notes@.take(i as int), pk)).push(note_leaf(notes@[i as int])));
            }
        }
        i = i + 1;
    }
    proof {
        assert(notes@.take(i as int) =~= notes@);
    }
    any
}

/// Builds the Apple Notes tree from the database's folder rows (in title order) and note
/// rows: an expanded root `Apple Notes`; each folder not nested under a parent (see
/// `nests_under`) at the top, with its notes and every folder under it nested by parent to any
/// depth; top-level folders without any note left out; everything then arranged.
pub fn assemble_notes_tree(folders: &Vec<FolderRow>, notes: &Vec<NoteRecord>) -> (r: TreeNode)
    ensures
        r@ == sorted_view(notes_tree_unsorted(row_views(folders@), notes@)),
{
    let ghost rv = row_views(folders@);
    let n = folders.len();
    let mut root = TreeNode::new_folder(string_of(chars_of("Apple Notes").as_slice()), String::new());
    root.expanded = true;
    let ghost root0 = root@;
    let nests = nesting(folders);
    let mut t: usize = 0;
    proof {
        assert(root@.children =~= top_folders(rv, notes@, 0));
    }
    while t < n
        invariant
            rv == row_views(folders@),
            n == folders@.len(),
            t <= n,
            nests@.len() == n,
            forall|j: int| 0 <= j < n ==> #[trigger] nests@[j] == nests_under(rv, j),
            root@ == (NodeView { children: top_folders(rv, notes@, t as int), ..root0 }),
            root0 == (NodeView { expanded: true, ..leaf("Apple Notes"@, Seq::empty(), NodeKind::Folder) }),
        decreases n - t,
    {
        proof {
            assert(rv[t as int] == row_view(folders@[t as int]));
        }
        if !nests[t] {
            let (node, has_notes) = build_folder(folders, notes, &nests, t, n);
            if has_notes {
                push_child(&mut root, node);
            }
        }
        t = t + 1;
    }
    proof {
        assert(root@ =~= notes_tree_unsorted(rv, notes@));
    }
    root.sort_children();
    root
}

/// The folder row that is the parent of row `j`, if any.
fn parent_of(folders: &Vec<FolderRow>, j: usize) -> (r: Option<usize>)
    requires
        j < folders@.len(),
    ensures
        match r {
            Some(p) => parent_index(row_views(folders@), j as int) == Some(p as int) && p < folders@.len(),
            None => parent_index(row_views(folders@), j as int) is None,
        },
{
    proof {
        assert(row_views(folders@)[j as int] == row_view(folders@[j as int]));
    }
    match folders[j].parent_pk {
        None => None,
        Some(p) => index_of(folders, p),
    }
}

/// Whether the parent links of row `j` loop back to it.
fn loops_back(folders: &Vec<FolderRow>, j: usize) -> (r: bool)
    requires
        j < folders@.len(),
    ensures
        r == on_cycle(row_views(folders@), j as int),
{
    let ghost rv = row_views(folders@);
    let n = folders.len();
    let mut a = j;
    let mut f = n;
    while f > 0
        invariant
            rv == row_views(folders@),
            n == folders@.len(),
            a < n,
            j < n,
            f <= n,
            reaches(rv, j as int, j as int, n as nat) == reaches(rv, a as int, j as int, f as nat),
        decreases f,
    {
        match parent_of(folders, a) {
            None => {
                return false;
            },
            Some(p) => {
                if p == j {
                    return true;
                }
                a = p;
                f = f - 1;
            },
        }
    }
    false
}

/// For each folder row, whether it is nested under its parent (`nests_under`).
fn nesting(folders: &Vec<FolderRow>) -> (r: Vec<bool>)
    ensures
        r@.len() == folders@.len(),
        forall|j: int| 0 <= j < folders@.len() ==> #[trigger] r@[j] == nests_under(row_views(folders@), j),
{
    let ghost rv = row_views(folders@);
    let n = folders.len();
    let mut placed: Vec<bool> = Vec::new();
    let mut nests: Vec<bool> = Vec::new();
    let mut j: usize = 0;
    while j < n
        invariant
            rv == row_views(folders@),
            n == folders@.len(),
            j <= n,
            placed@.len() == j,
            nests@.len() == j,
            forall|k: int| 0 <= k < j ==> #[trigger] placed@[k] == placed_in_order(rv, k),
            forall|k: int| 0 <= k < j ==> #[trigger] nests@[k] == nests_under(rv, k),
        decreases n - j,
    {
        let par = parent_of(folders, j);
        let pl = match par {
            None => false,
            Some(p) => if p < j {
                !placed[p]
            } else {
                true
            },
        };
        let ne = match par {
            None => false,
            Some(_) => !loops_back(folders, j) || pl,
        };
        placed.push(pl);
        nests.push(ne);
        j = j + 1;
    }
    nests
}

fn index_of(folders: &Vec<FolderRow>, pk: i64) -> (r: Option<usize>)
    ensures
        match r {
            Some(j) => index_of_pk(row_views(folders@), pk) == Some(j as int) && j < folders@.len(),
            None => index_of_pk(row_views(folders@), pk) is None,
        },
{
    let ghost rv = row_views(folders@);
    let mut i: usize = folders.len();
    proof {
        assert(rv.take(rv.len() as int) =~= rv);
    }
    while i > 0
        invariant
            rv == row_views(folders@),
            i <= folders@.len(),
            index_of_pk(rv, pk) == index_of_pk(rv.take(i as int), pk),
        decreases i,
    {
        proof {
            assert(rv.take(i as int).drop_last() =~= rv.take(i - 1));
            assert(rv.take(i as int).last() == row_view(folders@[i - 1]));
        }
        if folders[i - 1].pk == pk {
            return Some(i - 1);
        }
        i = i - 1;
    }
    None
}

proof fn lemma_notes_count(notes: Seq<NoteRecord>, pk: i64)
    ensures
        kind_count_seq(notes_in(notes, pk), NodeKind::Note) == notes_in(notes, pk).len(),
    decreases notes.len(),
{
    if notes.len() > 0 {
        lemma_notes_count(notes.drop_last(), pk);
        let rest = notes_in(notes.drop_last(), pk);
        if notes.last().folder_pk == Some(pk) {
            let l = note_leaf(notes.last());
            lemma_count_concat(rest, seq![l], NodeKind::Note);
            lemma_count_single(l, NodeKind::Note);
            assert(rest + seq![l] =~= rest.push(l));
            assert(kind_count_seq(l.children, NodeKind::Note) == 0);
        }
    } else {
        lemma_count_single(leaf(Seq::empty(), Seq::empty(), NodeKind::Note), NodeKind::Note);
    }
}

/// The tree of folder `i` with `fuel` levels (see `folder_tree`), and whether it holds a note.
fn build_folder(folders: &Vec<FolderRow>, notes: &Vec<NoteRecord>, nests: &Vec<bool>, i: usize, fuel: usize) -> (r: (
    TreeNode,
    bool,
))
    requires
        i < folders@.len(),
        nests@.len() == folders@.len(),
        forall|j: int| 0 <= j < folders@.len() ==> #[trigger] nests@[j] == nests_under(row_views(folders@), j),
    ensures
        r.0@ == folder_tree(row_views(folders@), notes@, i as int, fuel as nat),
        r.1 == (kind_count(r.0@, NodeKind::Note) > 0),
    decreases fuel,
{
    let ghost rv = row_views(folders@);
    let pk = folders[i].pk;
    proof {
        assert(rv[i as int] == row_view(folders@[i as int]));
    }
    let mut node = TreeNode::new_folder(
        string_of(chars_of(folders[i].title.as_str()).as_slice()),
        address("apple-notes://folder/", pk),
    );
    let mut any = add_notes(&mut node, notes, pk);
    let ghost base = node@;
    proof {
        lemma_notes_count(notes@, pk);
        assert(base.children =~= notes_in(notes@, pk));
        assert(node@ =~= NodeView { children: base.children + subfolders(rv, notes@, i as int, 0, fuel as nat), ..base });
    }
    let n = folders.len();
    let mut c: usize = 0;
    if fuel > 0 {
        while c < n
            invariant
                rv == row_views(folders@),
                n == folders@.len(),
                c <= n,
                i < n,
                fuel > 0,
                pk == rv[i as int].0,
                nests@.len() == n,
                forall|j: int| 0 <= j < n ==> #[trigger] nests@[j] == nests_under(rv, j),
                node@ == (NodeView { children: base.children + subfolders(rv, notes@, i as int, c as int, fuel as nat), ..base }),
                base == (NodeView { children: notes_in(notes@, pk), ..leaf(rv[i as int].1, folder_address(pk), NodeKind::Folder) }),
                any == (kind_count_seq(node@.children, NodeKind::Note) > 0),
            decreases n - c,
        {
            proof {
                assert(rv[c as int] == row_view(folders@[c as int]));
            }
            if folders[c].parent_pk == Some(pk) && nests[c] {
                let (child, child_any) = build_folder(folders, notes, nests, c, fuel - 1);
                let ghost before = node@.children;
                push_child(&mut node, child);
                any = any || child_any;
                proof {
                    assert(node@.children.drop_last() =~= before);
                    assert(base.children + subfolders(rv, notes@, i as int, c as int, fuel as nat).push(
                        folder_tree(rv, notes@, c as int, (fuel - 1) as nat),
                    ) =~= (base.children + subfolders(rv, notes@, i as int, c as int, fuel as nat)).push(
                        folder_tree(rv, notes@, c as int, (fuel - 1) as nat),
                    ));
                }
            }
            c = c + 1;
        }
    }
    proof {
        if fuel == 0 {
            assert(subfolders(rv, notes@, i as int, n as int, fuel as nat) =~= Seq::<NodeView>::empty());
            assert(subfolders(rv, notes@, i as int, 0, fuel as nat) =~= Seq::<NodeView>::empty());
        }
        assert(node@ =~= folder_tree(rv, notes@, i as int, fuel as nat));
    }
    (node, any)
}

} // verus!
