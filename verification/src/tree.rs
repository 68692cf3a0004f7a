//! The browsable tree of folders, notes and attachments: its arrangement, its counts, its
//! flattened display list and lookup by index path.
use vstd::prelude::*;

use crate::order::by_text_key;
use crate::order::lex_le;
use crate::order::insert_by;
use crate::order::into_reversed;
use crate::order::lemma_insert_by_split;
use crate::order::sort_by;
use crate::order::sort_by_text_keys;
use crate::order::lemma_sort_by_len;
use crate::order::lemma_by_text_key;
use crate::order::lemma_sort_by;
use crate::order::lemma_sort_by_all;
use crate::order::lemma_sort_sorted;
use crate::order::total_preorder;
use crate::order::sorted_by;
use crate::text::chars_of;
use crate::text::parse_i64;
use crate::text::parse_i64_spec;
use crate::text::strip_prefix_chars;
use crate::text::strip_prefix_spec;
use crate::text::lowercase;
use crate::text::lowercase_chars;

verus! {

/// What a tree node stands for.
#[derive(Debug, Clone, Copy, PartialEq, Eq, Structural)]
pub enum NodeKind {
    Folder,
    Note,
    Attachment,
    /// Visual separator line (not selectable).
    Divider,
}

/// A node of the tree. `path` locates the node's source: a file path for a vault, or an
/// `apple-notes://folder/{pk}` / `apple-notes://note/{pk}` address for Apple Notes.
#[derive(Debug)]
pub struct TreeNode {
    pub name: String,
    pub path: String,
    pub kind: NodeKind,
    pub children: Vec<TreeNode>,
    pub expanded: bool,
    /// Modification time of a note, in microseconds since 2001-01-01 (Cocoa time).
    pub modified_date: Option<i64>,
    /// Whether this note is pinned.
    pub is_pinned: bool,
}

/// The mathematical tree a `TreeNode` stands for.
pub struct NodeView {
    pub name: Seq<char>,
    pub path: Seq<char>,
    pub kind: NodeKind,
    pub children: Seq<NodeView>,
    pub expanded: bool,
    pub modified_date: Option<i64>,
    pub is_pinned: bool,
}

/// The view of a node.
pub open spec fn node_view(n: TreeNode) -> NodeView
    decreases n, 1nat,
{
    NodeView {
        name: n.name@,
        path: n.path@,
        kind: n.kind,
        children: node_views(n.children@),
        expanded: n.expanded,
        modified_date: n.modified_date,
        is_pinned: n.is_pinned,
    }
}

/// The views of a sequence of nodes.
pub open spec fn node_views(s: Seq<TreeNode>) -> Seq<NodeView>
    decreases s, 0nat,
{
    if s.len() == 0 {
        Seq::empty()
    } else {
        node_views(s.drop_last()).push(node_view(s.last()))
    }
}

impl View for TreeNode {
    type V = NodeView;

    open spec fn view(&self) -> NodeView {
        node_view(*self)
    }
}

/// The views of `s` are those of its members, in order.
pub proof fn lemma_node_views(s: Seq<TreeNode>)
    ensures
        node_views(s).len() == s.len(),
        forall|i: int| 0 <= i < s.len() ==> #[trigger] node_views(s)[i] == node_view(s[i]),
        node_views(s) == s.map_values(|n: TreeNode| node_view(n)),
    decreases s.len(),
{
    if s.len() > 0 {
        lemma_node_views(s.drop_last());
        assert forall|i: int| 0 <= i < s.len() implies #[trigger] node_views(s)[i] == node_view(s[i]) by {
            if i < s.len() - 1 {
                assert(s.drop_last()[i] == s[i]);
            }
        }
    }
    assert(node_views(s) =~= s.map_values(|n: TreeNode| node_view(n)));
}

/// A node with the given name, path and kind, collapsed, without children, date or pin.
pub open spec fn leaf(name: Seq<char>, path: Seq<char>, kind: NodeKind) -> NodeView {
    NodeView {
        name,
        path,
        kind,
        children: Seq::empty(),
        expanded: false,
        modified_date: None,
        is_pinned: false,
    }
}

/// How many nodes of kind `k` the tree holds, the node itself included.
pub open spec fn kind_count(v: NodeView, k: NodeKind) -> nat
    decreases v, 1nat,
{
    (if v.kind == k {
        1nat
    } else {
        0nat
    }) + kind_count_seq(v.children, k)
}

/// How many nodes of kind `k` the trees `s` hold.
pub open spec fn kind_count_seq(s: Seq<NodeView>, k: NodeKind) -> nat
    decreases s, 0nat,
{
    if s.len() == 0 {
        0
    } else {
        kind_count_seq(s.drop_last(), k) + kind_count(s.last(), k)
    }
}

proof fn lemma_kind_count_take(s: Seq<NodeView>, k: NodeKind, i: int)
    requires
        0 <= i < s.len(),
    ensures
        kind_count_seq(s.take(i + 1), k) == kind_count_seq(s.take(i), k) + kind_count(s[i], k),
        kind_count_seq(s.take(i + 1), k) <= kind_count_seq(s, k),
    decreases s.len(),
{
    assert(s.take(i + 1).drop_last() =~= s.take(i));
    if i + 1 < s.len() {
        lemma_kind_count_take(s.drop_last(), k, i);
        assert(s.drop_last().take(i + 1) =~= s.take(i + 1));
    } else {
        assert(s.take(i + 1) =~= s);
    }
}

impl TreeNode {
    /// A collapsed folder without children.
    pub fn new_folder(name: String, path: String) -> (n: Self)
        ensures
            n@ == leaf(name@, path@, NodeKind::Folder),
    {
        let n = TreeNode {
            name,
            path,
            kind: NodeKind::Folder,
            children: Vec::new(),
            expanded: false,
            modified_date: None,
            is_pinned: false,
        };
        proof {
            assert(node_views(n.children@) =~= Seq::<NodeView>::empty());
        }
        n
    }

    /// A note without date or pin.
    pub fn new_note(name: String, path: String) -> (n: Self)
        ensures
            n@ == leaf(name@, path@, NodeKind::Note),
    {
        let n = TreeNode {
            name,
            path,
            kind: NodeKind::Note,
            children: Vec::new(),
            expanded: false,
            modified_date: None,
            is_pinned: false,
        };
        proof {
            assert(node_views(n.children@) =~= Seq::<NodeView>::empty());
        }
        n
    }

    /// The separator between pinned and other notes.
    pub fn new_divider() -> (n: Self)
        ensures
            n@ == leaf(Seq::empty(), Seq::empty(), NodeKind::Divider),
    {
        let n = TreeNode {
            name: String::new(),
            path: String::new(),
            kind: NodeKind::Divider,
            children: Vec::new(),
            expanded: false,
            modified_date: None,
            is_pinned: false,
        };
        proof {
            assert(node_views(n.children@) =~= Seq::<NodeView>::empty());
        }
        n
    }

    fn count_kind(&self, k: NodeKind) -> (c: usize)
        requires
            kind_count(self@, k) <= usize::MAX,
        ensures
            c == kind_count(self@, k),
        decreases self,
    {
        let mut count: usize = if self.kind == k {
            1
        } else {
            0
        };
        let ghost own: nat = count as nat;
        let ghost kids = self.children@;
        let ghost vs = node_views(kids);
        proof {
            lemma_node_views(kids);
            assert(vs.take(0) =~= Seq::<NodeView>::empty());
        }
        let mut i: usize = 0;
        while i < self.children.len()
            invariant
                kids == self.children@,
                vs == node_views(kids),
                vs.len() == kids.len(),
                forall|j: int| 0 <= j < kids.len() ==> #[trigger] vs[j] == node_view(kids[j]),
                i <= kids.len(),
                own + kind_count_seq(vs, k) == kind_count(self@, k),
                kind_count(self@, k) <= usize::MAX,
                count == own + kind_count_seq(vs.take(i as int), k),
            decreases kids.len() - i,
        {
            proof {
                lemma_kind_count_take(vs, k, i as int);
                assert(decreases_to!(*self => self.children));
                assert(decreases_to!(self.children => kids));
                assert(decreases_to!(kids => kids[i as int]));
            }
            let c = self.children[i].count_kind(k);
            count = count + c;
            i = i + 1;
        }
        proof {
            assert(vs.take(vs.len() as int) =~= vs);
        }
        count
    }

    /// How many notes the tree holds.
    pub fn count_notes(&self) -> (c: usize)
        requires
            kind_count(self@, NodeKind::Note) <= usize::MAX,
        ensures
            c == kind_count(self@, NodeKind::Note),
    {
        self.count_kind(NodeKind::Note)
    }

    /// How many folders the tree holds, itself included.
    pub fn count_folders(&self) -> (c: usize)
        requires
            kind_count(self@, NodeKind::Folder) <= usize::MAX,
        ensures
            c == kind_count(self@, NodeKind::Folder),
    {
        self.count_kind(NodeKind::Folder)
    }

    /// How many attachments the tree holds.
    pub fn count_attachments(&self) -> (c: usize)
        requires
            kind_count(self@, NodeKind::Attachment) <= usize::MAX,
        ensures
            c == kind_count(self@, NodeKind::Attachment),
    {
        self.count_kind(NodeKind::Attachment)
    }
}

// ---------------------------------------------------------------------------
// Arrangement of children
// ---------------------------------------------------------------------------

/// The members of `s` of kind `k`, in order.
pub open spec fn of_kind(s: Seq<NodeView>, k: NodeKind) -> Seq<NodeView>
    decreases s.len(),
{
    if s.len() == 0 {
        s
    } else if s.last().kind == k {
        of_kind(s.drop_last(), k).push(s.last())
    } else {
        of_kind(s.drop_last(), k)
    }
}

/// The members of `s` whose pin flag is `p`, in order.
pub open spec fn with_pin(s: Seq<NodeView>, p: bool) -> Seq<NodeView>
    decreases s.len(),
{
    if s.len() == 0 {
        s
    } else if s.last().is_pinned == p {
        with_pin(s.drop_last(), p).push(s.last())
    } else {
        with_pin(s.drop_last(), p)
    }
}

/// The key folders are ordered by: the lower-case form of the name.
pub open spec fn folder_key() -> spec_fn(NodeView) -> Seq<char> {
    |v: NodeView| lowercase(v.name)
}

/// Folders in the code-point order of their lower-case names.
pub open spec fn by_folder_name() -> spec_fn(NodeView, NodeView) -> bool {
    by_text_key(folder_key())
}

/// The date a note is ordered by (none counts as zero).
pub open spec fn date_of(v: NodeView) -> int {
    match v.modified_date {
        Some(d) => d as int,
        None => 0,
    }
}

/// Notes from the most recently modified.
pub open spec fn newest_first() -> spec_fn(NodeView, NodeView) -> bool {
    |a: NodeView, b: NodeView| date_of(b) <= date_of(a)
}

/// The children `m`, arranged: folders by name, then pinned notes newest first, a divider when
/// both pinned and other notes exist, the other notes newest first, then attachments in their
/// order. Old dividers are dropped.
pub open spec fn arrange(m: Seq<NodeView>) -> Seq<NodeView> {
    let folders = sort_by(of_kind(m, NodeKind::Folder), by_folder_name());
    let notes = of_kind(m, NodeKind::Note);
    let pinned = sort_by(with_pin(notes, true), newest_first());
    let unpinned = sort_by(with_pin(notes, false), newest_first());
    let divider = if pinned.len() > 0 && unpinned.len() > 0 {
        seq![leaf(Seq::empty(), Seq::empty(), NodeKind::Divider)]
    } else {
        Seq::empty()
    };
    folders + pinned + divider + unpinned + of_kind(m, NodeKind::Attachment)
}

/// The tree with every level of children arranged, the deepest first.
pub open spec fn sorted_view(v: NodeView) -> NodeView
    decreases v, 1nat,
{
    NodeView { children: arrange(sorted_views(v.children)), ..v }
}

/// Each tree of `s` with its children arranged.
pub open spec fn sorted_views(s: Seq<NodeView>) -> Seq<NodeView>
    decreases s, 0nat,
{
    if s.len() == 0 {
        s
    } else {
        sorted_views(s.drop_last()).push(sorted_view(s.last()))
    }
}

fn date_value(n: &TreeNode) -> (d: i64)
    ensures
        d == date_of(n@),
{
    match n.modified_date {
        Some(d) => d,
        None => 0,
    }
}

proof fn lemma_views_insert(s: Seq<TreeNode>, j: int, x: TreeNode)
    requires
        0 <= j <= s.len(),
    ensures
        node_views(s.insert(j, x)) == node_views(s).take(j).push(node_view(x)) + node_views(s).skip(j),
{
    lemma_node_views(s);
    lemma_node_views(s.insert(j, x));
    assert(node_views(s.insert(j, x)) =~= node_views(s).take(j).push(node_view(x)) + node_views(
        s,
    ).skip(j));
}

/// Stable insertion sort of notes, newest first.
fn sort_newest_first(items: Vec<TreeNode>) -> (r: Vec<TreeNode>)
    ensures
        node_views(r@) == sort_by(node_views(items@), newest_first()),
{
    let ghost le = newest_first();
    let ghost orig = items@;
    let ghost vorig = node_views(orig);
    proof {
        lemma_node_views(orig);
    }
    let mut rev = into_reversed(items);
    let mut out: Vec<TreeNode> = Vec::new();
    let ghost mut done: int = 0;
    proof {
        assert(vorig.take(0) =~= Seq::<NodeView>::empty());
        assert(node_views(out@) =~= Seq::<NodeView>::empty());
    }
    while rev.len() > 0
        invariant
            done + rev@.len() == orig.len(),
            0 <= done <= orig.len(),
            vorig == node_views(orig),
            vorig.len() == orig.len(),
            forall|i: int| 0 <= i < orig.len() ==> #[trigger] vorig[i] == node_view(orig[i]),
            forall|i: int| 0 <= i < rev@.len() ==> rev@[i] == orig[orig.len() - 1 - i],
            node_views(out@) == sort_by(vorig.take(done), le),
            le == newest_first(),
        decreases rev@.len(),
    {
        let x = rev.pop().unwrap();
        let ghost vx = node_view(x);
        let ghost vout = node_views(out@);
        proof {
            assert(x == orig[done]);
            assert(vorig.take(done + 1).drop_last() =~= vorig.take(done));
            assert(vorig.take(done + 1).last() == vx);
            lemma_node_views(out@);
        }
        let dx = date_value(&x);
        let mut j: usize = out.len();
        while j > 0 && date_value(&out[j - 1]) < dx
            invariant
                j <= out@.len(),
                dx == date_of(vx),
                vx == node_view(x),
                vout == node_views(out@),
                vout.len() == out@.len(),
                forall|i: int| 0 <= i < out@.len() ==> #[trigger] vout[i] == node_view(out@[i]),
                forall|k: int| j <= k < vout.len() ==> !le(#[trigger] vout[k], vx),
                le == newest_first(),
            decreases j,
        {
            j = j - 1;
        }
        proof {
            lemma_insert_by_split(vout, vx, le, j as int);
            lemma_views_insert(out@, j as int, x);
            done = done + 1;
        }
        out.insert(j, x);
    }
    proof {
        assert(vorig.take(done) =~= vorig);
    }
    out
}

/// Arranges the (already arranged) children `m` of a node.
fn arrange_children(m: Vec<TreeNode>) -> (r: Vec<TreeNode>)
    ensures
        node_views(r@) == arrange(node_views(m@)),
{
    let ghost ms = m@;
    let ghost vs = node_views(ms);
    proof {
        lemma_node_views(ms);
    }
    let mut rev = into_reversed(m);
    let mut folders: Vec<TreeNode> = Vec::new();
    let mut keys: Vec<Vec<char>> = Vec::new();
    let mut pinned: Vec<TreeNode> = Vec::new();
    let mut unpinned: Vec<TreeNode> = Vec::new();
    let mut attachments: Vec<TreeNode> = Vec::new();
    let ghost mut done: int = 0;
    proof {
        assert(vs.take(0) =~= Seq::<NodeView>::empty());
        assert(node_views(folders@) =~= Seq::<NodeView>::empty());
    }
    while rev.len() > 0
        invariant
            done + rev@.len() == ms.len(),
            0 <= done <= ms.len(),
            vs == node_views(ms),
            vs.len() == ms.len(),
            forall|i: int| 0 <= i < ms.len() ==> #[trigger] vs[i] == node_view(ms[i]),
            forall|i: int| 0 <= i < rev@.len() ==> rev@[i] == ms[ms.len() - 1 - i],
            node_views(folders@) == of_kind(vs.take(done), NodeKind::Folder),
            folders@.len() == keys@.len(),
            forall|i: int|
                0 <= i < keys@.len() ==> #[trigger] keys@[i]@ == (folder_key())(
                    node_view(folders@[i]),
                ),
            node_views(pinned@) == with_pin(of_kind(vs.take(done), NodeKind::Note), true),
            node_views(unpinned@) == with_pin(of_kind(vs.take(done), NodeKind::Note), false),
            node_views(attachments@) == of_kind(vs.take(done), NodeKind::Attachment),
        decreases rev@.len(),
    {
        let c = rev.pop().unwrap();
        let ghost vc = node_view(c);
        let ghost notes_before = of_kind(vs.take(done), NodeKind::Note);
        proof {
            assert(c == ms[done]);
            assert(vs.take(done + 1).drop_last() =~= vs.take(done));
            assert(vs.take(done + 1).last() == vc);
            assert(notes_before.push(vc).drop_last() =~= notes_before);
            done = done + 1;
        }
        match c.kind {
            NodeKind::Folder => {
                let name_chars = chars_of(c.name.as_str());
                let key = lowercase_chars(name_chars.as_slice());
                let ghost before = folders@;
                folders.push(c);
                keys.push(key);
                proof {
                    assert(folders@.drop_last() =~= before);
                }
            },
            NodeKind::Note => {
                if c.is_pinned {
                    let ghost before = pinned@;
                    pinned.push(c);
                    proof {
                        assert(pinned@.drop_last() =~= before);
                    }
                } else {
                    let ghost before = unpinned@;
                    unpinned.push(c);
                    proof {
                        assert(unpinned@.drop_last() =~= before);
                    }
                }
            },
            NodeKind::Attachment => {
                let ghost before = attachments@;
                attachments.push(c);
                proof {
                    assert(attachments@.drop_last() =~= before);
                }
            },
            NodeKind::Divider => {},
        }
    }
    proof {
        assert(vs.take(done) =~= vs);
        lemma_node_views(folders@);
    }
    let ghost vfolders = node_views(folders@);
    let mut out = sort_by_text_keys::<TreeNode, NodeView>(
        folders,
        keys,
        Ghost(|n: TreeNode| node_view(n)),
        Ghost(folder_key()),
    );
    let ghost vpinned = node_views(pinned@);
    let ghost vunpinned = node_views(unpinned@);
    let ghost vatt = node_views(attachments@);
    let mut pinned = sort_newest_first(pinned);
    let mut unpinned = sort_newest_first(unpinned);
    proof {
        lemma_node_views(out@);
        lemma_node_views(pinned@);
        lemma_node_views(unpinned@);
        lemma_node_views(attachments@);
        lemma_sort_by_len(vpinned, newest_first());
        lemma_sort_by_len(vunpinned, newest_first());
    }
    let both = pinned.len() > 0 && unpinned.len() > 0;
    let ghost p1 = out@;
    let ghost p2 = pinned@;
    let ghost p4 = unpinned@;
    let ghost p5 = attachments@;
    out.append(&mut pinned);
    let ghost mid = out@;
    if both {
        out.push(TreeNode::new_divider());
    }
    let ghost p3 = if both { seq![out@.last()] } else { Seq::<TreeNode>::empty() };
    out.append(&mut unpinned);
    out.append(&mut attachments);
    proof {
        assert(out@ =~= p1 + p2 + p3 + p4 + p5);
        lemma_node_views(out@);
        lemma_node_views(p3);
        assert(node_views(out@) =~= node_views(p1) + node_views(p2) + node_views(p3) + node_views(p4)
            + node_views(p5));
    }
    out
}

/// The tree `n` with every level of children arranged.
fn sorted(n: TreeNode) -> (r: TreeNode)
    ensures
        r@ == sorted_view(n@),
    decreases n,
{
    let ghost orig = n;
    let ghost kids = n.children@;
    let ghost vk = node_views(kids);
    proof {
        lemma_node_views(kids);
    }
    let TreeNode { name, path, kind, children, expanded, modified_date, is_pinned } = n;
    let mut rev = into_reversed(children);
    let mut m: Vec<TreeNode> = Vec::new();
    proof {
        assert(vk.take(0) =~= Seq::<NodeView>::empty());
        assert(node_views(m@) =~= Seq::<NodeView>::empty());
    }
    while rev.len() > 0
        invariant
            orig == n,
            kids == orig.children@,
            vk == node_views(kids),
            vk.len() == kids.len(),
            forall|i: int| 0 <= i < kids.len() ==> #[trigger] vk[i] == node_view(kids[i]),
            m@.len() + rev@.len() == kids.len(),
            forall|i: int| 0 <= i < rev@.len() ==> rev@[i] == kids[kids.len() - 1 - i],
            node_views(m@) == sorted_views(vk.take(m@.len() as int)),
        decreases rev@.len(),
    {
        let c = rev.pop().unwrap();
        let ghost k = m@.len() as int;
        proof {
            assert(c == kids[k]);
            assert(decreases_to!(orig => orig.children));
            assert(decreases_to!(orig.children => kids));
            assert(decreases_to!(kids => kids[k]));
            assert(decreases_to!(orig => c));
        }
        let sc = sorted(c);
        let ghost before = m@;
        m.push(sc);
        proof {
            assert(vk.take(k + 1).drop_last() =~= vk.take(k));
            assert(m@.drop_last() =~= before);
        }
    }
    proof {
        assert(vk.take(vk.len() as int) =~= vk);
    }
    let arranged_children = arrange_children(m);
    TreeNode { name, path, kind, children: arranged_children, expanded, modified_date, is_pinned }
}

impl TreeNode {
    /// Arranges the children at every level: folders first (by lower-case name), then pinned
    /// notes newest first, a divider when pinned and other notes both exist, the other notes
    /// newest first, then attachments.
    pub fn sort_children(&mut self)
        ensures
            final(self)@ == sorted_view(old(self)@),
    {
        let mut taken = TreeNode::new_divider();
        std::mem::swap(&mut taken, self);
        let r = sorted(taken);
        *self = r;
    }
}

// ---------------------------------------------------------------------------
// Flattened display list and lookup by index path
// ---------------------------------------------------------------------------

/// A line of the flattened tree.
#[derive(Debug)]
pub struct FlatItem {
    pub depth: usize,
    pub name: String,
    pub kind: NodeKind,
    pub expanded: bool,
    pub has_children: bool,
    /// Index path into the tree to locate this node.
    pub index_path: Vec<usize>,
    /// Modification time of a note (see `TreeNode::modified_date`).
    pub modified_date: Option<i64>,
    /// Whether this note is pinned.
    pub is_pinned: bool,
}

/// What a `FlatItem` holds.
pub struct FlatView {
    pub depth: nat,
    pub name: Seq<char>,
    pub kind: NodeKind,
    pub expanded: bool,
    pub has_children: bool,
    pub index_path: Seq<usize>,
    pub modified_date: Option<i64>,
    pub is_pinned: bool,
}

impl View for FlatItem {
    type V = FlatView;

    open spec fn view(&self) -> FlatView {
        FlatView {
            depth: self.depth as nat,
            name: self.name@,
            kind: self.kind,
            expanded: self.expanded,
            has_children: self.has_children,
            index_path: self.index_path@,
            modified_date: self.modified_date,
            is_pinned: self.is_pinned,
        }
    }
}

/// The views of a list of items.
pub open spec fn flat_views(s: Seq<FlatItem>) -> Seq<FlatView> {
    s.map_values(|f: FlatItem| f@)
}

/// The line that shows `v`, at `depth`, found at `path`.
pub open spec fn item_of(v: NodeView, depth: nat, path: Seq<usize>) -> FlatView {
    FlatView {
        depth,
        name: v.name,
        kind: v.kind,
        expanded: v.expanded,
        has_children: v.children.len() > 0,
        index_path: path,
        modified_date: v.modified_date,
        is_pinned: v.is_pinned,
    }
}

/// The lines of the tree `v` placed at `path`, `depth` deep: its own line, then, when it is
/// expanded, those of its children.
pub open spec fn flat_node(v: NodeView, depth: nat, path: Seq<usize>) -> Seq<FlatView>
    decreases v, 1nat,
{
    seq![item_of(v, depth, path)] + if v.expanded {
        flat_children(v.children, depth + 1, path)
    } else {
        Seq::empty()
    }
}

/// The lines of the trees `s`, children of the node at `path`, each `depth` deep.
pub open spec fn flat_children(s: Seq<NodeView>, depth: nat, path: Seq<usize>) -> Seq<FlatView>
    decreases s, 0nat,
{
    if s.len() == 0 {
        Seq::empty()
    } else {
        flat_children(s.drop_last(), depth, path) + flat_node(
            s.last(),
            depth,
            path.push((s.len() - 1) as usize),
        )
    }
}

/// How many nodes the tree holds.
pub open spec fn size(v: NodeView) -> nat
    decreases v, 1nat,
{
    1 + size_seq(v.children)
}

/// How many nodes the trees `s` hold.
pub open spec fn size_seq(s: Seq<NodeView>) -> nat
    decreases s, 0nat,
{
    if s.len() == 0 {
        0
    } else {
        size_seq(s.drop_last()) + size(s.last())
    }
}

proof fn lemma_size_member(s: Seq<NodeView>, i: int)
    requires
        0 <= i < s.len(),
    ensures
        size(s[i]) <= size_seq(s),
    decreases s.len(),
{
    if i < s.len() - 1 {
        lemma_size_member(s.drop_last(), i);
        assert(s.drop_last()[i] == s[i]);
    }
}

/// The subtree of `v` that `path` leads to.
pub open spec fn descend(v: NodeView, path: Seq<usize>) -> Option<NodeView>
    decreases path.len(),
{
    if path.len() == 0 {
        Some(v)
    } else if path[0] < v.children.len() {
        descend(v.children[path[0] as int], path.skip(1))
    } else {
        None
    }
}

/// The node of the forest `roots` that `path` leads to: its first index picks a root.
pub open spec fn node_at(roots: Seq<NodeView>, path: Seq<usize>) -> Option<NodeView> {
    if path.len() == 0 || path[0] >= roots.len() {
        None
    } else {
        descend(roots[path[0] as int], path.skip(1))
    }
}

fn item_for(node: &TreeNode, depth: usize, path: &Vec<usize>) -> (f: FlatItem)
    ensures
        f@ == item_of(node@, depth as nat, path@),
{
    FlatItem {
        depth,
        name: node.name.clone(),
        kind: node.kind,
        expanded: node.expanded,
        has_children: node.children.len() > 0,
        index_path: path.clone(),
        modified_date: node.modified_date,
        is_pinned: node.is_pinned,
    }
}

fn flatten_node(node: &TreeNode, depth: usize, path: &mut Vec<usize>, items: &mut Vec<FlatItem>)
    requires
        depth + size(node@) <= usize::MAX,
    ensures
        final(path)@ == old(path)@,
        flat_views(final(items)@) == flat_views(old(items)@) + flat_node(node@, depth as nat, old(path)@),
    decreases node,
{
    let ghost start = flat_views(items@);
    let ghost p = path@;
    let it = item_for(node, depth, path);
    items.push(it);
    proof {
        assert(flat_views(items@) =~= start + seq![item_of(node@, depth as nat, p)]);
    }
    if node.expanded {
        let ghost kids = node.children@;
        let ghost vk = node_views(kids);
        proof {
            lemma_node_views(kids);
            assert(vk.take(0) =~= Seq::<NodeView>::empty());
        }
        let mut i: usize = 0;
        while i < node.children.len()
            invariant
                kids == node.children@,
                vk == node_views(kids),
                vk.len() == kids.len(),
                forall|j: int| 0 <= j < kids.len() ==> #[trigger] vk[j] == node_view(kids[j]),
                node@.children == vk,
                depth + size(node@) <= usize::MAX,
                i <= kids.len(),
                path@ == p,
                flat_views(items@) == start + seq![item_of(node@, depth as nat, p)] + flat_children(
                    vk.take(i as int),
                    depth as nat + 1,
                    p,
                ),
            decreases kids.len() - i,
        {
            proof {
                lemma_size_member(vk, i as int);
                assert(decreases_to!(*node => node.children));
                assert(decreases_to!(node.children => kids));
                assert(decreases_to!(kids => kids[i as int]));
                assert(vk.take(i + 1).drop_last() =~= vk.take(i as int));
                assert(vk.take(i + 1).last() == vk[i as int]);
                assert(vk.take(i + 1).len() == i + 1);
            }
            let ghost before = flat_views(items@);
            path.push(i);
            flatten_node(&node.children[i], depth + 1, path, items);
            path.pop();
            proof {
                assert(p.push(i) =~= p.push((vk.take(i + 1).len() - 1) as usize));
                assert(flat_views(items@) =~= start + seq![item_of(node@, depth as nat, p)] + flat_children(
                    vk.take(i + 1),
                    depth as nat + 1,
                    p,
                ));
            }
            i = i + 1;
        }
        proof {
            assert(vk.take(vk.len() as int) =~= vk);
        }
    } else {
        proof {
            assert(flat_views(items@) =~= start + flat_node(node@, depth as nat, p));
        }
    }
}

/// The display lines of the forest `roots`: each root at depth 0 with index path `[i]`, and
/// below every expanded node the lines of its children.
pub fn flatten_tree(roots: &[TreeNode]) -> (items: Vec<FlatItem>)
    requires
        forall|i: int| 0 <= i < roots@.len() ==> size(#[trigger] roots@[i]@) <= usize::MAX,
    ensures
        flat_views(items@) == flat_children(node_views(roots@), 0, Seq::empty()),
{
    let ghost vr = node_views(roots@);
    proof {
        lemma_node_views(roots@);
        assert(vr.take(0) =~= Seq::<NodeView>::empty());
    }
    let mut items: Vec<FlatItem> = Vec::new();
    let mut i: usize = 0;
    proof {
        assert(flat_views(items@) =~= Seq::<FlatView>::empty());
    }
    while i < roots.len()
        invariant
            vr == node_views(roots@),
            vr.len() == roots@.len(),
            forall|j: int| 0 <= j < roots@.len() ==> #[trigger] vr[j] == node_view(roots@[j]),
            forall|j: int| 0 <= j < roots@.len() ==> size(#[trigger] roots@[j]@) <= usize::MAX,
            i <= roots@.len(),
            flat_views(items@) == flat_children(vr.take(i as int), 0, Seq::empty()),
        decreases roots@.len() - i,
    {
        let mut path: Vec<usize> = Vec::new();
        path.push(i);
        let ghost before = flat_views(items@);
        flatten_node(&roots[i], 0, &mut path, &mut items);
        proof {
            assert(vr.take(i + 1).drop_last() =~= vr.take(i as int));
            assert(vr.take(i + 1).last() == vr[i as int]);
            assert(path@ =~= Seq::<usize>::empty().push((vr.take(i + 1).len() - 1) as usize));
        }
        i = i + 1;
    }
    proof {
        assert(vr.take(vr.len() as int) =~= vr);
    }
    items
}

/// The node of `roots` that `path` leads to.
pub fn get_node<'a>(roots: &'a [TreeNode], path: &[usize]) -> (r: Option<&'a TreeNode>)
    ensures
        match r {
            Some(n) => node_at(node_views(roots@), path@) == Some(n@),
            None => node_at(node_views(roots@), path@) is None,
        },
{
    proof {
        lemma_node_views(roots@);
    }
    if path.len() == 0 || path[0] >= roots.len() {
        return None;
    }
    let mut node: &TreeNode = &roots[path[0]];
    let mut k: usize = 1;
    while k < path.len()
        invariant
            1 <= k <= path@.len(),
            node_at(node_views(roots@), path@) == descend(node@, path@.skip(k as int)),
        decreases path@.len() - k,
    {
        let idx = path[k];
        proof {
            lemma_node_views(node.children@);
            assert(path@.skip(k as int).skip(1) =~= path@.skip(k + 1));
        }
        if idx >= node.children.len() {
            return None;
        }
        node = &node.children[idx];
        k = k + 1;
    }
    proof {
        assert(path@.skip(k as int) =~= Seq::<usize>::empty());
    }
    Some(node)
}

/// `v` with the subtree that `path` leads to replaced by `w` (unchanged when the path leads
/// nowhere).
pub open spec fn replace_at(v: NodeView, path: Seq<usize>, w: NodeView) -> NodeView
    decreases path.len(),
{
    if path.len() == 0 {
        w
    } else if path[0] < v.children.len() {
        NodeView {
            children: v.children.update(
                path[0] as int,
                replace_at(v.children[path[0] as int], path.skip(1), w),
            ),
            ..v
        }
    } else {
        v
    }
}

/// The forest `roots` with the node that `path` leads to replaced by `w`.
pub open spec fn replace_node_at(roots: Seq<NodeView>, path: Seq<usize>, w: NodeView) -> Seq<
    NodeView,
> {
    if path.len() == 0 || path[0] >= roots.len() {
        roots
    } else {
        roots.update(path[0] as int, replace_at(roots[path[0] as int], path.skip(1), w))
    }
}

proof fn lemma_views_update(s: Seq<TreeNode>, i: int, x: TreeNode)
    requires
        0 <= i < s.len(),
    ensures
        node_views(s.update(i, x)) == node_views(s).update(i, node_view(x)),
        node_view(x) == node_view(s[i]) ==> node_views(s.update(i, x)) == node_views(s),
{
    lemma_node_views(s);
    lemma_node_views(s.update(i, x));
    assert(node_views(s.update(i, x)) =~= node_views(s).update(i, node_view(x)));
    if node_view(x) == node_view(s[i]) {
        assert(node_views(s).update(i, node_view(x)) =~= node_views(s));
    }
}

fn descend_mut<'a>(node: &'a mut TreeNode, path: &[usize], k: usize) -> (r: Option<&'a mut TreeNode>)
    requires
        k <= path@.len(),
    ensures
        match r {
            Some(m) => {
                &&& descend(old(node)@, path@.skip(k as int)) == Some((*m)@)
                &&& final(node)@ == replace_at(old(node)@, path@.skip(k as int), final(m)@)
            },
            None => {
                &&& descend(old(node)@, path@.skip(k as int)) is None
                &&& final(node)@ == old(node)@
            },
        },
    decreases path@.len() - k,
{
    if k == path.len() {
        proof {
            assert(path@.skip(k as int) =~= Seq::<usize>::empty());
        }
        return Some(node);
    }
    let idx = path[k];
    proof {
        lemma_node_views(node.children@);
        assert(path@.skip(k as int).skip(1) =~= path@.skip(k + 1));
    }
    if idx >= node.children.len() {
        return None;
    }
    let ghost old_kids = node.children@;
    let child = &mut node.children[idx];
    let ghost fc = *final(child);
    proof {
        lemma_views_update(old_kids, idx as int, fc);
    }
    descend_mut(child, path, k + 1)
}

/// Mutable access to the node of `roots` that `path` leads to; what is written through it
/// lands at that place of the forest.
pub fn get_node_mut<'a>(roots: &'a mut Vec<TreeNode>, path: &[usize]) -> (r: Option<
    &'a mut TreeNode,
>)
    ensures
        match r {
            Some(m) => {
                &&& node_at(node_views(old(roots)@), path@) == Some((*m)@)
                &&& node_views(final(roots)@) == replace_node_at(
                    node_views(old(roots)@),
                    path@,
                    final(m)@,
                )
            },
            None => {
                &&& node_at(node_views(old(roots)@), path@) is None
                &&& node_views(final(roots)@) == node_views(old(roots)@)
            },
        },
{
    proof {
        lemma_node_views(roots@);
    }
    if path.len() == 0 || path[0] >= roots.len() {
        return None;
    }
    let ghost old_roots = roots@;
    let i = path[0];
    let root = &mut roots[i];
    let ghost fr = *final(root);
    proof {
        lemma_views_update(old_roots, i as int, fr);
    }
    descend_mut(root, path, 1)
}

proof fn lemma_descend_replace(v: NodeView, path: Seq<usize>, w: NodeView)
    requires
        descend(v, path) is Some,
    ensures
        descend(replace_at(v, path, w), path) == Some(w),
    decreases path.len(),
{
    if path.len() > 0 {
        lemma_descend_replace(v.children[path[0] as int], path.skip(1), w);
    }
}

/// What is written through `get_node_mut` is what `get_node` then finds at that path.
pub proof fn law_get_node_reads_write(roots: Seq<NodeView>, path: Seq<usize>, w: NodeView)
    requires
        node_at(roots, path) is Some,
    ensures
        node_at(replace_node_at(roots, path, w), path) == Some(w),
{
    lemma_descend_replace(roots[path[0] as int], path.skip(1), w);
}

/// The primary keys of the Apple Notes folders in the tree (`apple-notes://folder/{pk}`
/// paths), in the order of a depth-first walk.
pub open spec fn folder_pks(v: NodeView) -> Seq<i64>
    decreases v, 1nat,
{
    own_folder_pk(v) + folder_pks_seq(v.children)
}

/// The folder primary keys of the trees `s`, in order.
pub open spec fn folder_pks_seq(s: Seq<NodeView>) -> Seq<i64>
    decreases s, 0nat,
{
    if s.len() == 0 {
        Seq::empty()
    } else {
        folder_pks_seq(s.drop_last()) + folder_pks(s.last())
    }
}

/// The prefix of an Apple Notes folder path; the primary key follows it.
pub open spec fn folder_path_prefix() -> Seq<char> {
    "apple-notes://folder/"@
}

/// The key of `v` itself, when it is a folder whose path holds one.
pub open spec fn own_folder_pk(v: NodeView) -> Seq<i64> {
    if v.kind == NodeKind::Folder {
        match strip_prefix_spec(v.path, folder_path_prefix()) {
            Some(rest) => match parse_i64_spec(rest) {
                Some(pk) => seq![pk],
                None => Seq::empty(),
            },
            None => Seq::empty(),
        }
    } else {
        Seq::empty()
    }
}

fn collect_folder_pks_into(node: &TreeNode, pks: &mut Vec<i64>)
    ensures
        final(pks)@ == old(pks)@ + folder_pks(node@),
    decreases node,
{
    let ghost start = pks@;
    if node.kind == NodeKind::Folder {
        let path_chars = chars_of(node.path.as_str());
        let prefix = chars_of("apple-notes://folder/");
        match strip_prefix_chars(path_chars.as_slice(), prefix.as_slice()) {
            Some(rest) => match parse_i64(rest.as_slice()) {
                Some(pk) => {
                    pks.push(pk);
                },
                None => {},
            },
            None => {},
        }
    }
    proof {
        assert(pks@ =~= start + own_folder_pk(node@));
    }
    let ghost kids = node.children@;
    let ghost vk = node_views(kids);
    proof {
        lemma_node_views(kids);
        assert(vk.take(0) =~= Seq::<NodeView>::empty());
    }
    let mut i: usize = 0;
    while i < node.children.len()
        invariant
            kids == node.children@,
            vk == node_views(kids),
            vk.len() == kids.len(),
            forall|j: int| 0 <= j < kids.len() ==> #[trigger] vk[j] == node_view(kids[j]),
            node@.children == vk,
            i <= kids.len(),
            pks@ == start + own_folder_pk(node@) + folder_pks_seq(vk.take(i as int)),
        decreases kids.len() - i,
    {
        proof {
            assert(decreases_to!(*node => node.children));
            assert(decreases_to!(node.children => kids));
            assert(decreases_to!(kids => kids[i as int]));
            assert(vk.take(i + 1).drop_last() =~= vk.take(i as int));
            assert(vk.take(i + 1).last() == vk[i as int]);
        }
        collect_folder_pks_into(&node.children[i], pks);
        proof {
            assert(pks@ =~= start + own_folder_pk(node@) + folder_pks_seq(vk.take(i + 1)));
        }
        i = i + 1;
    }
    proof {
        assert(vk.take(vk.len() as int) =~= vk);
    }
}

/// The primary keys of the Apple Notes folders in the subtree `node`, in the order of a
/// depth-first walk.
pub fn collect_folder_pks(node: &TreeNode) -> (pks: Vec<i64>)
    ensures
        pks@ == folder_pks(node@),
{
    let mut pks: Vec<i64> = Vec::new();
    collect_folder_pks_into(node, &mut pks);
    proof {
        assert(pks@ =~= folder_pks(node@));
    }
    pks
}

// ---------------------------------------------------------------------------
// Every flattened line leads back to its node
// ---------------------------------------------------------------------------

/// Every list of children in the tree is short enough to be indexed by `usize`.
pub open spec fn fits(v: NodeView) -> bool
    decreases v, 1nat,
{
    v.children.len() <= usize::MAX && fits_seq(v.children)
}

/// `fits` holds of every tree of `s`.
pub open spec fn fits_seq(s: Seq<NodeView>) -> bool
    decreases s, 0nat,
{
    s.len() == 0 || (fits_seq(s.drop_last()) && fits(s.last()))
}

proof fn lemma_fits_member(s: Seq<NodeView>, i: int)
    requires
        fits_seq(s),
        0 <= i < s.len(),
    ensures
        fits(s[i]),
    decreases s.len(),
{
    if i < s.len() - 1 {
        lemma_fits_member(s.drop_last(), i);
        assert(s.drop_last()[i] == s[i]);
    }
}

proof fn lemma_view_fits(n: TreeNode)
    ensures
        fits(n@),
    decreases n, 1nat,
{
    lemma_views_fit(n.children@);
    lemma_node_views(n.children@);
    assert(n.children@.len() == n.children.len());
}

proof fn lemma_views_fit(s: Seq<TreeNode>)
    ensures
        fits_seq(node_views(s)),
    decreases s, 0nat,
{
    if s.len() > 0 {
        lemma_views_fit(s.drop_last());
        lemma_view_fits(s.last());
        let p = node_views(s.drop_last());
        assert(p.push(node_view(s.last())).drop_last() =~= p);
    }
}

proof fn lemma_flat_node(v: NodeView, d: nat, p: Seq<usize>, k: int)
    requires
        fits(v),
        0 <= k < flat_node(v, d, p).len(),
    ensures
        ({
            let f = flat_node(v, d, p)[k];
            &&& f.index_path.len() >= p.len()
            &&& f.index_path.take(p.len() as int) == p
            &&& descend(v, f.index_path.skip(p.len() as int)) matches Some(w) && f == item_of(
                w,
                (d + (f.index_path.len() - p.len())) as nat,
                f.index_path,
            )
        }),
    decreases v, 1nat,
{
    let f = flat_node(v, d, p)[k];
    if k == 0 {
        assert(p.take(p.len() as int) =~= p);
        assert(p.skip(p.len() as int) =~= Seq::<usize>::empty());
    } else {
        assert(v.expanded);
        let rest = flat_children(v.children, d + 1, p);
        assert(f == rest[k - 1]);
        lemma_flat_children(v.children, d + 1, p, k - 1);
        let q = f.index_path.skip(p.len() as int);
        assert(q.skip(1) =~= f.index_path.skip(p.len() as int + 1));
        assert(q[0] == f.index_path[p.len() as int]);
    }
}

proof fn lemma_flat_children(s: Seq<NodeView>, d: nat, p: Seq<usize>, k: int)
    requires
        fits_seq(s),
        s.len() <= usize::MAX,
        0 <= k < flat_children(s, d, p).len(),
    ensures
        ({
            let f = flat_children(s, d, p)[k];
            let i = f.index_path[p.len() as int];
            &&& f.index_path.len() > p.len()
            &&& f.index_path.take(p.len() as int) == p
            &&& i < s.len()
            &&& descend(s[i as int], f.index_path.skip(p.len() as int + 1)) matches Some(w) && f == item_of(
                w,
                (d + (f.index_path.len() - p.len() - 1)) as nat,
                f.index_path,
            )
        }),
    decreases s, 0nat,
{
    let n = s.len();
    let first = flat_children(s.drop_last(), d, p);
    let last_path = p.push((n - 1) as usize);
    let f = flat_children(s, d, p)[k];
    if k < first.len() {
        assert(f == first[k]);
        lemma_flat_children(s.drop_last(), d, p, k);
        let i = f.index_path[p.len() as int];
        assert(s.drop_last()[i as int] == s[i as int]);
    } else {
        lemma_fits_member(s, n - 1);
        assert(f == flat_node(s.last(), d, last_path)[k - first.len()]);
        lemma_flat_node(s.last(), d, last_path, k - first.len());
        assert(f.index_path.take(last_path.len() as int).take(p.len() as int) =~= f.index_path.take(
            p.len() as int,
        ));
        assert(last_path.take(p.len() as int) =~= p);
        assert(f.index_path[p.len() as int] == last_path[p.len() as int]);
    }
}

/// Every line of the flattened forest leads, by its index path, back to the node it shows:
/// the node there has the line's name, kind, flags and date, and the line's depth is the
/// path's length less one.
pub proof fn law_flat_lines_locate_nodes(roots: Seq<TreeNode>, k: int)
    requires
        roots.len() <= usize::MAX,
        0 <= k < flat_children(node_views(roots), 0, Seq::empty()).len(),
    ensures
        ({
            let f = flat_children(node_views(roots), 0, Seq::empty())[k];
            node_at(node_views(roots), f.index_path) matches Some(w) && f == item_of(
                w,
                (f.index_path.len() - 1) as nat,
                f.index_path,
            )
        }),
{
    let vr = node_views(roots);
    lemma_node_views(roots);
    lemma_views_fit(roots);
    lemma_flat_children(vr, 0, Seq::empty(), k);
    let f = flat_children(vr, 0, Seq::empty())[k];
    assert(Seq::<usize>::empty().len() as int + 1 == 1);
}

// ---------------------------------------------------------------------------
// Arranging keeps every folder, note and attachment
// ---------------------------------------------------------------------------

/// No divider in the tree has children (true of every tree the constructors build).
pub open spec fn bare_dividers(v: NodeView) -> bool
    decreases v, 1nat,
{
    (v.kind == NodeKind::Divider ==> v.children.len() == 0) && bare_dividers_seq(v.children)
}

/// No divider in the trees `s` has children.
pub open spec fn bare_dividers_seq(s: Seq<NodeView>) -> bool
    decreases s, 0nat,
{
    s.len() == 0 || (bare_dividers_seq(s.drop_last()) && bare_dividers(s.last()))
}

pub proof fn lemma_count_concat(a: Seq<NodeView>, b: Seq<NodeView>, k: NodeKind)
    ensures
        kind_count_seq(a + b, k) == kind_count_seq(a, k) + kind_count_seq(b, k),
    decreases b.len(),
{
    if b.len() == 0 {
        assert(a + b =~= a);
    } else {
        lemma_count_concat(a, b.drop_last(), k);
        assert((a + b).drop_last() =~= a + b.drop_last());
        assert((a + b).last() == b.last());
    }
}

pub proof fn lemma_count_single(x: NodeView, k: NodeKind)
    ensures
        kind_count_seq(Seq::<NodeView>::empty(), k) == 0,
        kind_count_seq(seq![x], k) == kind_count(x, k),
{
    let e = Seq::<NodeView>::empty();
    assert(kind_count_seq(e, k) == 0);
    assert(seq![x].drop_last() =~= e);
    assert(seq![x].last() == x);
    assert(kind_count_seq(seq![x], k) == kind_count_seq(seq![x].drop_last(), k) + kind_count(x, k));
}

proof fn lemma_count_insert(s: Seq<NodeView>, x: NodeView, le: spec_fn(NodeView, NodeView) -> bool, k: NodeKind)
    ensures
        kind_count_seq(insert_by(s, x, le), k) == kind_count_seq(s, k) + kind_count(x, k),
    decreases s.len(),
{
    if s.len() == 0 {
        lemma_count_single(x, k);
    } else if le(s.last(), x) {
        assert(s.push(x).drop_last() =~= s);
    } else {
        lemma_count_insert(s.drop_last(), x, le, k);
        let u = insert_by(s.drop_last(), x, le);
        assert(u.push(s.last()).drop_last() =~= u);
    }
}

proof fn lemma_count_sort(s: Seq<NodeView>, le: spec_fn(NodeView, NodeView) -> bool, k: NodeKind)
    ensures
        kind_count_seq(sort_by(s, le), k) == kind_count_seq(s, k),
    decreases s.len(),
{
    if s.len() > 0 {
        lemma_count_sort(s.drop_last(), le, k);
        lemma_count_insert(sort_by(s.drop_last(), le), s.last(), le, k);
    }
}

proof fn lemma_count_kinds(m: Seq<NodeView>, k: NodeKind)
    ensures
        kind_count_seq(m, k) == kind_count_seq(of_kind(m, NodeKind::Folder), k) + kind_count_seq(
            of_kind(m, NodeKind::Note),
            k,
        ) + kind_count_seq(of_kind(m, NodeKind::Attachment), k) + kind_count_seq(
            of_kind(m, NodeKind::Divider),
            k,
        ),
    decreases m.len(),
{
    if m.len() > 0 {
        lemma_count_kinds(m.drop_last(), k);
        let t = m.drop_last();
        let l = m.last();
        assert(of_kind(t, l.kind).push(l).drop_last() =~= of_kind(t, l.kind));
    }
}

proof fn lemma_count_pins(m: Seq<NodeView>, k: NodeKind)
    ensures
        kind_count_seq(m, k) == kind_count_seq(with_pin(m, true), k) + kind_count_seq(
            with_pin(m, false),
            k,
        ),
    decreases m.len(),
{
    if m.len() > 0 {
        lemma_count_pins(m.drop_last(), k);
        let t = m.drop_last();
        let l = m.last();
        assert(with_pin(t, l.is_pinned).push(l).drop_last() =~= with_pin(t, l.is_pinned));
    }
}

proof fn lemma_count_dividers(m: Seq<NodeView>, k: NodeKind)
    requires
        k != NodeKind::Divider,
        forall|i: int| 0 <= i < m.len() && #[trigger] m[i].kind == NodeKind::Divider ==> m[i].children.len() == 0,
    ensures
        kind_count_seq(of_kind(m, NodeKind::Divider), k) == 0,
    decreases m.len(),
{
    if m.len() > 0 {
        let t = m.drop_last();
        assert forall|i: int| 0 <= i < t.len() && #[trigger] t[i].kind == NodeKind::Divider implies t[i].children.len() == 0 by {
            assert(t[i] == m[i]);
        }
        lemma_count_dividers(t, k);
        let l = m.last();
        lemma_count_single(l, k);
        if l.kind == NodeKind::Divider {
            assert(m[m.len() - 1] == l);
            assert(l.children =~= Seq::<NodeView>::empty());
            assert(of_kind(t, NodeKind::Divider).push(l).drop_last() =~= of_kind(t, NodeKind::Divider));
        }
    }
}

proof fn lemma_count_arrange(m: Seq<NodeView>, k: NodeKind)
    requires
        k != NodeKind::Divider,
        forall|i: int| 0 <= i < m.len() && #[trigger] m[i].kind == NodeKind::Divider ==> m[i].children.len() == 0,
    ensures
        kind_count_seq(arrange(m), k) == kind_count_seq(m, k),
{
    let folders = sort_by(of_kind(m, NodeKind::Folder), by_folder_name());
    let notes = of_kind(m, NodeKind::Note);
    let pinned = sort_by(with_pin(notes, true), newest_first());
    let unpinned = sort_by(with_pin(notes, false), newest_first());
    let divider = if pinned.len() > 0 && unpinned.len() > 0 {
        seq![leaf(Seq::empty(), Seq::empty(), NodeKind::Divider)]
    } else {
        Seq::empty()
    };
    let atts = of_kind(m, NodeKind::Attachment);
    lemma_count_concat(folders, pinned, k);
    lemma_count_concat(folders + pinned, divider, k);
    lemma_count_concat(folders + pinned + divider, unpinned, k);
    lemma_count_concat(folders + pinned + divider + unpinned, atts, k);
    lemma_count_sort(of_kind(m, NodeKind::Folder), by_folder_name(), k);
    lemma_count_sort(with_pin(notes, true), newest_first(), k);
    lemma_count_sort(with_pin(notes, false), newest_first(), k);
    lemma_count_pins(notes, k);
    lemma_count_kinds(m, k);
    lemma_count_dividers(m, k);
    if divider.len() > 0 {
        let d = leaf(Seq::empty(), Seq::empty(), NodeKind::Divider);
        lemma_count_single(d, k);
        assert(kind_count_seq(d.children, k) == 0);
    } else {
        lemma_count_single(leaf(Seq::empty(), Seq::empty(), NodeKind::Divider), k);
    }
}

proof fn lemma_sorted_views(s: Seq<NodeView>)
    ensures
        sorted_views(s).len() == s.len(),
        forall|i: int| 0 <= i < s.len() ==> #[trigger] sorted_views(s)[i] == sorted_view(s[i]),
    decreases s.len(),
{
    if s.len() > 0 {
        lemma_sorted_views(s.drop_last());
        assert forall|i: int| 0 <= i < s.len() implies #[trigger] sorted_views(s)[i] == sorted_view(s[i]) by {
            if i < s.len() - 1 {
                assert(s.drop_last()[i] == s[i]);
            }
        }
    }
}

proof fn lemma_sort_keeps_count(v: NodeView, k: NodeKind)
    requires
        k != NodeKind::Divider,
        bare_dividers(v),
    ensures
        kind_count(sorted_view(v), k) == kind_count(v, k),
    decreases v, 1nat,
{
    lemma_sort_keeps_count_seq(v.children, k);
    let sv = sorted_views(v.children);
    lemma_sorted_views(v.children);
    assert forall|i: int| 0 <= i < sv.len() && #[trigger] sv[i].kind == NodeKind::Divider implies sv[i].children.len() == 0 by {
        lemma_bare_member(v.children, i);
        assert(sv[i] == sorted_view(v.children[i]));
        assert(sorted_views(v.children[i].children) =~= Seq::<NodeView>::empty());
        assert(of_kind(Seq::<NodeView>::empty(), NodeKind::Folder) =~= Seq::<NodeView>::empty());
        assert(arrange(Seq::<NodeView>::empty()) =~= Seq::<NodeView>::empty());
    }
    lemma_count_arrange(sv, k);
}

proof fn lemma_bare_member(s: Seq<NodeView>, i: int)
    requires
        bare_dividers_seq(s),
        0 <= i < s.len(),
    ensures
        bare_dividers(s[i]),
    decreases s.len(),
{
    if i < s.len() - 1 {
        lemma_bare_member(s.drop_last(), i);
        assert(s.drop_last()[i] == s[i]);
    }
}

proof fn lemma_sort_keeps_count_seq(s: Seq<NodeView>, k: NodeKind)
    requires
        k != NodeKind::Divider,
        bare_dividers_seq(s),
    ensures
        kind_count_seq(sorted_views(s), k) == kind_count_seq(s, k),
    decreases s, 0nat,
{
    if s.len() > 0 {
        lemma_sort_keeps_count_seq(s.drop_last(), k);
        lemma_sort_keeps_count(s.last(), k);
        let p = sorted_views(s.drop_last());
        assert(p.push(sorted_view(s.last())).drop_last() =~= p);
    }
}

/// Arranging keeps every folder, note and attachment: for each of these kinds the arranged
/// tree holds as many nodes of it as the tree did (when no divider has children; dividers are
/// replaced).
pub proof fn law_sort_keeps_counts(v: NodeView, k: NodeKind)
    requires
        k != NodeKind::Divider,
        bare_dividers(v),
    ensures
        kind_count(sorted_view(v), k) == kind_count(v, k),
{
    lemma_sort_keeps_count(v, k);
}

// ---------------------------------------------------------------------------
// Arranging twice
// ---------------------------------------------------------------------------

proof fn lemma_of_kind_concat(a: Seq<NodeView>, b: Seq<NodeView>, k: NodeKind)
    ensures
        of_kind(a + b, k) == of_kind(a, k) + of_kind(b, k),
    decreases b.len(),
{
    if b.len() == 0 {
        assert(a + b =~= a);
        assert(of_kind(a, k) + of_kind(b, k) =~= of_kind(a, k));
    } else {
        lemma_of_kind_concat(a, b.drop_last(), k);
        assert((a + b).drop_last() =~= a + b.drop_last());
        assert((a + b).last() == b.last());
        assert((of_kind(a, k) + of_kind(b.drop_last(), k)).push(b.last()) =~= of_kind(a, k) + of_kind(
            b.drop_last(),
            k,
        ).push(b.last()));
    }
}

proof fn lemma_with_pin_concat(a: Seq<NodeView>, b: Seq<NodeView>, p: bool)
    ensures
        with_pin(a + b, p) == with_pin(a, p) + with_pin(b, p),
    decreases b.len(),
{
    if b.len() == 0 {
        assert(a + b =~= a);
        assert(with_pin(a, p) + with_pin(b, p) =~= with_pin(a, p));
    } else {
        lemma_with_pin_concat(a, b.drop_last(), p);
        assert((a + b).drop_last() =~= a + b.drop_last());
        assert((a + b).last() == b.last());
        assert((with_pin(a, p) + with_pin(b.drop_last(), p)).push(b.last()) =~= with_pin(a, p) + with_pin(
            b.drop_last(),
            p,
        ).push(b.last()));
    }
}

/// `of_kind` keeps exactly the members of that kind: all of them when all have it, none when
/// none has it; and what holds of every member holds of every kept one.
proof fn lemma_of_kind_facts(s: Seq<NodeView>, k: NodeKind, q: spec_fn(NodeView) -> bool)
    ensures
        forall|i: int| 0 <= i < of_kind(s, k).len() ==> (#[trigger] of_kind(s, k)[i]).kind == k,
        (forall|i: int| 0 <= i < s.len() ==> (#[trigger] s[i]).kind == k) ==> of_kind(s, k) == s,
        (forall|i: int| 0 <= i < s.len() ==> (#[trigger] s[i]).kind != k) ==> of_kind(s, k) == Seq::<NodeView>::empty(),
        (forall|i: int| 0 <= i < s.len() ==> q(#[trigger] s[i])) ==> forall|i: int|
            0 <= i < of_kind(s, k).len() ==> q(#[trigger] of_kind(s, k)[i]),
    decreases s.len(),
{
    if s.len() > 0 {
        let d = s.drop_last();
        lemma_of_kind_facts(d, k, q);
        assert(s[s.len() - 1] == s.last());
        assert(d.push(s.last()) =~= s);
        if forall|i: int| 0 <= i < s.len() ==> (#[trigger] s[i]).kind == k {
            assert forall|i: int| 0 <= i < d.len() implies (#[trigger] d[i]).kind == k by {
                assert(d[i] == s[i]);
            }
        }
        if forall|i: int| 0 <= i < s.len() ==> (#[trigger] s[i]).kind != k {
            assert forall|i: int| 0 <= i < d.len() implies (#[trigger] d[i]).kind != k by {
                assert(d[i] == s[i]);
            }
        }
        if forall|i: int| 0 <= i < s.len() ==> q(#[trigger] s[i]) {
            assert forall|i: int| 0 <= i < d.len() implies q(#[trigger] d[i]) by {
                assert(d[i] == s[i]);
            }
        }
        let o = of_kind(d, k);
        if s.last().kind == k {
            assert forall|i: int| 0 <= i < o.push(s.last()).len() implies (#[trigger] o.push(s.last())[i]).kind == k by {
                if i < o.len() {
                    assert(o.push(s.last())[i] == o[i]);
                }
            }
            if forall|i: int| 0 <= i < s.len() ==> q(#[trigger] s[i]) {
                assert forall|i: int| 0 <= i < o.push(s.last()).len() implies q(#[trigger] o.push(s.last())[i]) by {
                    if i < o.len() {
                        assert(o.push(s.last())[i] == o[i]);
                    }
                }
            }
        }
    }
}

/// The same for `with_pin`.
proof fn lemma_with_pin_facts(s: Seq<NodeView>, p: bool, q: spec_fn(NodeView) -> bool)
    ensures
        forall|i: int| 0 <= i < with_pin(s, p).len() ==> (#[trigger] with_pin(s, p)[i]).is_pinned == p,
        (forall|i: int| 0 <= i < s.len() ==> (#[trigger] s[i]).is_pinned == p) ==> with_pin(s, p) == s,
        (forall|i: int| 0 <= i < s.len() ==> (#[trigger] s[i]).is_pinned != p) ==> with_pin(s, p) == Seq::<NodeView>::empty(),
        (forall|i: int| 0 <= i < s.len() ==> q(#[trigger] s[i])) ==> forall|i: int|
            0 <= i < with_pin(s, p).len() ==> q(#[trigger] with_pin(s, p)[i]),
    decreases s.len(),
{
    if s.len() > 0 {
        let d = s.drop_last();
        lemma_with_pin_facts(d, p, q);
        assert(s[s.len() - 1] == s.last());
        assert(d.push(s.last()) =~= s);
        if forall|i: int| 0 <= i < s.len() ==> (#[trigger] s[i]).is_pinned == p {
            assert forall|i: int| 0 <= i < d.len() implies (#[trigger] d[i]).is_pinned == p by {
                assert(d[i] == s[i]);
            }
        }
        if forall|i: int| 0 <= i < s.len() ==> (#[trigger] s[i]).is_pinned != p {
            assert forall|i: int| 0 <= i < d.len() implies (#[trigger] d[i]).is_pinned != p by {
                assert(d[i] == s[i]);
            }
        }
        if forall|i: int| 0 <= i < s.len() ==> q(#[trigger] s[i]) {
            assert forall|i: int| 0 <= i < d.len() implies q(#[trigger] d[i]) by {
                assert(d[i] == s[i]);
            }
        }
        let o = with_pin(d, p);
        if s.last().is_pinned == p {
            assert forall|i: int| 0 <= i < o.push(s.last()).len() implies (#[trigger] o.push(s.last())[i]).is_pinned == p by {
                if i < o.len() {
                    assert(o.push(s.last())[i] == o[i]);
                }
            }
            if forall|i: int| 0 <= i < s.len() ==> q(#[trigger] s[i]) {
                assert forall|i: int| 0 <= i < o.push(s.last()).len() implies q(#[trigger] o.push(s.last())[i]) by {
                    if i < o.len() {
                        assert(o.push(s.last())[i] == o[i]);
                    }
                }
            }
        }
    }
}

proof fn lemma_newest_first_preorder()
    ensures
        total_preorder(newest_first()),
{
}

proof fn lemma_all_concat(a: Seq<NodeView>, b: Seq<NodeView>, q: spec_fn(NodeView) -> bool)
    requires
        forall|i: int| 0 <= i < a.len() ==> q(#[trigger] a[i]),
        forall|i: int| 0 <= i < b.len() ==> q(#[trigger] b[i]),
    ensures
        forall|i: int| 0 <= i < (a + b).len() ==> q(#[trigger] (a + b)[i]),
{
    assert forall|i: int| 0 <= i < (a + b).len() implies q(#[trigger] (a + b)[i]) by {
        if i < a.len() {
            assert((a + b)[i] == a[i]);
        } else {
            assert((a + b)[i] == b[i - a.len()]);
        }
    }
}

/// The parts of an arrangement, with what holds of their members.
proof fn lemma_arrange_parts(m: Seq<NodeView>, q: spec_fn(NodeView) -> bool)
    ensures
        ({
            let folders = sort_by(of_kind(m, NodeKind::Folder), by_folder_name());
            let notes = of_kind(m, NodeKind::Note);
            let pinned = sort_by(with_pin(notes, true), newest_first());
            let unpinned = sort_by(with_pin(notes, false), newest_first());
            let atts = of_kind(m, NodeKind::Attachment);
            &&& forall|i: int| 0 <= i < folders.len() ==> (#[trigger] folders[i]).kind == NodeKind::Folder
            &&& forall|i: int| 0 <= i < pinned.len() ==> (#[trigger] pinned[i]).kind == NodeKind::Note && pinned[i].is_pinned
            &&& forall|i: int| 0 <= i < unpinned.len() ==> (#[trigger] unpinned[i]).kind == NodeKind::Note && !unpinned[i].is_pinned
            &&& forall|i: int| 0 <= i < atts.len() ==> (#[trigger] atts[i]).kind == NodeKind::Attachment
            &&& sorted_by(folders, by_folder_name())
            &&& sorted_by(pinned, newest_first())
            &&& sorted_by(unpinned, newest_first())
            &&& (forall|i: int| 0 <= i < m.len() ==> q(#[trigger] m[i])) ==> {
                &&& forall|i: int| 0 <= i < folders.len() ==> q(#[trigger] folders[i])
                &&& forall|i: int| 0 <= i < pinned.len() ==> q(#[trigger] pinned[i])
                &&& forall|i: int| 0 <= i < unpinned.len() ==> q(#[trigger] unpinned[i])
                &&& forall|i: int| 0 <= i < atts.len() ==> q(#[trigger] atts[i])
            }
        }),
{
    let notes = of_kind(m, NodeKind::Note);
    lemma_by_text_key(folder_key());
    lemma_newest_first_preorder();
    lemma_of_kind_facts(m, NodeKind::Folder, q);
    lemma_of_kind_facts(m, NodeKind::Note, q);
    lemma_of_kind_facts(m, NodeKind::Attachment, q);
    let is_folder = |v: NodeView| v.kind == NodeKind::Folder;
    lemma_sort_by_all(of_kind(m, NodeKind::Folder), by_folder_name(), is_folder);
    lemma_sort_by(of_kind(m, NodeKind::Folder), by_folder_name());
    let pin_note = |v: NodeView| v.kind == NodeKind::Note && v.is_pinned;
    let free_note = |v: NodeView| v.kind == NodeKind::Note && !v.is_pinned;
    let is_note = |v: NodeView| v.kind == NodeKind::Note;
    lemma_with_pin_facts(notes, true, is_note);
    lemma_with_pin_facts(notes, false, is_note);
    lemma_sort_by_all(with_pin(notes, true), newest_first(), pin_note);
    lemma_sort_by_all(with_pin(notes, false), newest_first(), free_note);
    lemma_sort_by(with_pin(notes, true), newest_first());
    lemma_sort_by(with_pin(notes, false), newest_first());
    if forall|i: int| 0 <= i < m.len() ==> q(#[trigger] m[i]) {
        lemma_with_pin_facts(notes, true, q);
        lemma_with_pin_facts(notes, false, q);
        lemma_sort_by_all(of_kind(m, NodeKind::Folder), by_folder_name(), q);
        lemma_sort_by_all(with_pin(notes, true), newest_first(), q);
        lemma_sort_by_all(with_pin(notes, false), newest_first(), q);
    }
}

/// Arranging arranged children changes nothing.
proof fn lemma_arrange_twice(m: Seq<NodeView>)
    ensures
        arrange(arrange(m)) == arrange(m),
{
    let q = |v: NodeView| true;
    lemma_arrange_parts(m, q);
    let folders = sort_by(of_kind(m, NodeKind::Folder), by_folder_name());
    let notes = of_kind(m, NodeKind::Note);
    let pinned = sort_by(with_pin(notes, true), newest_first());
    let unpinned = sort_by(with_pin(notes, false), newest_first());
    let dv = leaf(Seq::empty(), Seq::empty(), NodeKind::Divider);
    let divider = if pinned.len() > 0 && unpinned.len() > 0 {
        seq![dv]
    } else {
        Seq::empty()
    };
    let atts = of_kind(m, NodeKind::Attachment);
    let a = arrange(m);
    assert(a == folders + pinned + divider + unpinned + atts);
    let ks = seq![NodeKind::Folder, NodeKind::Note, NodeKind::Attachment, NodeKind::Divider];
    // what each kind keeps of each part
    assert forall|j: int| 0 <= j < 4 implies {
        let k = #[trigger] ks[j];
        &&& of_kind(a, k) == of_kind(folders, k) + of_kind(pinned, k) + of_kind(divider, k) + of_kind(
            unpinned,
            k,
        ) + of_kind(atts, k)
    } by {
        let k = ks[j];
        lemma_of_kind_concat(folders + pinned + divider + unpinned, atts, k);
        lemma_of_kind_concat(folders + pinned + divider, unpinned, k);
        lemma_of_kind_concat(folders + pinned, divider, k);
        lemma_of_kind_concat(folders, pinned, k);
    }
    let none = Seq::<NodeView>::empty();
    lemma_of_kind_facts(folders, NodeKind::Folder, q);
    lemma_of_kind_facts(folders, NodeKind::Note, q);
    lemma_of_kind_facts(folders, NodeKind::Attachment, q);
    lemma_of_kind_facts(pinned, NodeKind::Folder, q);
    lemma_of_kind_facts(pinned, NodeKind::Note, q);
    lemma_of_kind_facts(pinned, NodeKind::Attachment, q);
    lemma_of_kind_facts(unpinned, NodeKind::Folder, q);
    lemma_of_kind_facts(unpinned, NodeKind::Note, q);
    lemma_of_kind_facts(unpinned, NodeKind::Attachment, q);
    lemma_of_kind_facts(atts, NodeKind::Folder, q);
    lemma_of_kind_facts(atts, NodeKind::Note, q);
    lemma_of_kind_facts(atts, NodeKind::Attachment, q);
    lemma_of_kind_facts(divider, NodeKind::Folder, q);
    lemma_of_kind_facts(divider, NodeKind::Note, q);
    lemma_of_kind_facts(divider, NodeKind::Attachment, q);
    assert(ks[0] == NodeKind::Folder && ks[1] == NodeKind::Note && ks[2] == NodeKind::Attachment);
    assert(of_kind(a, NodeKind::Folder) =~= folders);
    assert(of_kind(a, NodeKind::Note) =~= pinned + unpinned);
    assert(of_kind(a, NodeKind::Attachment) =~= atts);
    let notes2 = pinned + unpinned;
    lemma_with_pin_concat(pinned, unpinned, true);
    lemma_with_pin_concat(pinned, unpinned, false);
    lemma_with_pin_facts(pinned, true, q);
    lemma_with_pin_facts(pinned, false, q);
    lemma_with_pin_facts(unpinned, true, q);
    lemma_with_pin_facts(unpinned, false, q);
    assert(with_pin(notes2, true) =~= pinned);
    assert(with_pin(notes2, false) =~= unpinned);
    lemma_sort_sorted(folders, by_folder_name());
    lemma_sort_sorted(pinned, newest_first());
    lemma_sort_sorted(unpinned, newest_first());
}

/// Every member of an arrangement is a member of the children arranged, or the divider.
proof fn lemma_arrange_members(m: Seq<NodeView>, q: spec_fn(NodeView) -> bool)
    requires
        forall|i: int| 0 <= i < m.len() ==> q(#[trigger] m[i]),
        q(leaf(Seq::empty(), Seq::empty(), NodeKind::Divider)),
    ensures
        forall|i: int| 0 <= i < arrange(m).len() ==> q(#[trigger] arrange(m)[i]),
{
    lemma_arrange_parts(m, q);
    let folders = sort_by(of_kind(m, NodeKind::Folder), by_folder_name());
    let notes = of_kind(m, NodeKind::Note);
    let pinned = sort_by(with_pin(notes, true), newest_first());
    let unpinned = sort_by(with_pin(notes, false), newest_first());
    let dv = leaf(Seq::empty(), Seq::empty(), NodeKind::Divider);
    let divider = if pinned.len() > 0 && unpinned.len() > 0 {
        seq![dv]
    } else {
        Seq::empty()
    };
    let atts = of_kind(m, NodeKind::Attachment);
    assert forall|i: int| 0 <= i < divider.len() implies q(#[trigger] divider[i]) by {
        assert(divider[i] == dv);
    }
    lemma_all_concat(folders, pinned, q);
    lemma_all_concat(folders + pinned, divider, q);
    lemma_all_concat(folders + pinned + divider, unpinned, q);
    lemma_all_concat(folders + pinned + divider + unpinned, atts, q);
}

/// Arranging a tree twice gives what arranging it once gives: an arranged tree stays as it is.
pub proof fn law_sorting_twice_changes_nothing(v: NodeView)
    ensures
        sorted_view(sorted_view(v)) == sorted_view(v),
    decreases v,
{
    let c = sorted_views(v.children);
    lemma_sorted_views(v.children);
    assert forall|i: int| 0 <= i < c.len() implies sorted_view(#[trigger] c[i]) == c[i] by {
        assert(decreases_to!(v => v.children));
        assert(decreases_to!(v.children => v.children[i]));
        law_sorting_twice_changes_nothing(v.children[i]);
    }
    let fixed = |x: NodeView| sorted_view(x) == x;
    let dv = leaf(Seq::empty(), Seq::empty(), NodeKind::Divider);
    assert(sorted_views(dv.children) =~= Seq::<NodeView>::empty());
    assert(of_kind(Seq::<NodeView>::empty(), NodeKind::Folder) =~= Seq::<NodeView>::empty());
    assert(arrange(Seq::<NodeView>::empty()) =~= Seq::<NodeView>::empty());
    assert(sorted_view(dv) =~= dv);
    lemma_arrange_members(c, fixed);
    let a = arrange(c);
    lemma_sorted_views(a);
    assert(sorted_views(a) =~= a);
    lemma_arrange_twice(c);
    assert(sorted_view(sorted_view(v)).children =~= sorted_view(v).children);
}


/// How a tree's children come after sorting: folders first, in the code-point order of their
/// lower-case names (so case does not split them); then the pinned notes, newest first (a note
/// without a date counting as 0), before all the other notes, which come newest first too;
/// attachments after every folder and note.
pub proof fn law_sorted_children_order(v: NodeView)
    ensures
        ({
            let c = sorted_view(v).children;
            &&& forall|i: int, j: int|
                0 <= i < j < c.len() && (#[trigger] c[j]).kind == NodeKind::Folder ==> (#[trigger] c[i]).kind
                    == NodeKind::Folder
            &&& forall|i: int, j: int|
                0 <= i < j < c.len() && (#[trigger] c[i]).kind == NodeKind::Folder && (#[trigger] c[j]).kind
                    == NodeKind::Folder ==> lex_le(lowercase(c[i].name), lowercase(c[j].name))
            &&& forall|i: int, j: int|
                0 <= i < j < c.len() && (#[trigger] c[i]).kind == NodeKind::Note && (#[trigger] c[j]).kind
                    == NodeKind::Note ==> (c[j].is_pinned ==> c[i].is_pinned) && (c[i].is_pinned == c[j].is_pinned
                    ==> c[j].modified_date.unwrap_or(0) <= c[i].modified_date.unwrap_or(0))
            &&& forall|i: int, j: int|
                0 <= i < j < c.len() && (#[trigger] c[i]).kind == NodeKind::Attachment ==> (#[trigger] c[j]).kind
                    == NodeKind::Attachment
        }),
{
    let m = sorted_views(v.children);
    let q = |x: NodeView| true;
    lemma_arrange_parts(m, q);
    let folders = sort_by(of_kind(m, NodeKind::Folder), by_folder_name());
    let notes = of_kind(m, NodeKind::Note);
    let pinned = sort_by(with_pin(notes, true), newest_first());
    let unpinned = sort_by(with_pin(notes, false), newest_first());
    let dv = leaf(Seq::empty(), Seq::empty(), NodeKind::Divider);
    let divider = if pinned.len() > 0 && unpinned.len() > 0 {
        seq![dv]
    } else {
        Seq::<NodeView>::empty()
    };
    let atts = of_kind(m, NodeKind::Attachment);
    let c = sorted_view(v).children;
    assert(c == folders + pinned + divider + unpinned + atts);
    let f = folders.len() as int;
    let p = f + pinned.len();
    let d = p + divider.len();
    let u = d + unpinned.len();
    assert forall|i: int| 0 <= i < c.len() implies {
        &&& (i < f ==> #[trigger] c[i] == folders[i])
        &&& (f <= i < p ==> c[i] == pinned[i - f])
        &&& (p <= i < d ==> c[i] == dv)
        &&& (d <= i < u ==> c[i] == unpinned[i - d])
        &&& (u <= i ==> c[i] == atts[i - u])
    } by {
        if p <= i < d {
            assert(divider[i - p] == dv);
        }
    }
    assert forall|i: int| 0 <= i < c.len() implies {
        &&& ((#[trigger] c[i]).kind == NodeKind::Folder <==> i < f)
        &&& (c[i].kind == NodeKind::Note <==> f <= i < p || d <= i < u)
        &&& (c[i].kind == NodeKind::Note ==> (c[i].is_pinned <==> i < p))
        &&& (c[i].kind == NodeKind::Attachment <==> u <= i)
    } by {
        if i < f {
            assert(folders[i].kind == NodeKind::Folder);
        } else if i < p {
            assert(pinned[i - f].kind == NodeKind::Note);
        } else if i < d {
        } else if i < u {
            assert(unpinned[i - d].kind == NodeKind::Note);
        } else {
            assert(atts[i - u].kind == NodeKind::Attachment);
        }
    }
    assert forall|i: int, j: int|
        0 <= i < j < c.len() && (#[trigger] c[i]).kind == NodeKind::Folder && (#[trigger] c[j]).kind
            == NodeKind::Folder implies lex_le(lowercase(c[i].name), lowercase(c[j].name)) by {
        assert(by_folder_name()(folders[i], folders[j]));
    }
    assert forall|i: int, j: int|
        0 <= i < j < c.len() && (#[trigger] c[i]).kind == NodeKind::Note && (#[trigger] c[j]).kind
            == NodeKind::Note implies (c[j].is_pinned ==> c[i].is_pinned) && (c[i].is_pinned == c[j].is_pinned
            ==> c[j].modified_date.unwrap_or(0) <= c[i].modified_date.unwrap_or(0)) by {
        if c[i].is_pinned && c[j].is_pinned {
            assert(newest_first()(pinned[i - f], pinned[j - f]));
        } else if !c[i].is_pinned && !c[j].is_pinned {
            assert(newest_first()(unpinned[i - d], unpinned[j - d]));
        }
    }
}

} // verus!
