//! What the diagnostic report of a note says of its document: where the attachment markers
//! are, which runs name inline hashtags or mentions (skipped as attachments), which markers no
//! attachment accounts for, and which style run covers a position.
use vstd::prelude::*;
use vstd::wrapping::usize_specs;

use crate::note::attachment_views;
use crate::note::content_fields;
use crate::note::find_markers;
use crate::note::is_skipped;
use crate::note::is_skipped_type;
use crate::note::marker_positions;
use crate::note::parse_checked;
use crate::note::run_length;
use crate::note::run_views;
use crate::note::string_or_default;
use crate::note::string_or_empty;
use crate::note::varint_or_default;
use crate::note::AttachmentPosition;
use crate::note::AttachmentView;
use crate::note::StyleRun;
use crate::note::StyleRunView;
use crate::proto::get_all_bytes;
use crate::proto::get_bytes;
use crate::proto::parse_message;
use crate::proto::proto_get_all_bytes;
use crate::proto::proto_get_bytes;
use crate::text::chars_of;

verus! {

/// A run that names an attachment of a skipped type.
#[derive(Debug)]
pub struct SkippedRun {
    /// Where the run starts in the text.
    pub pos: usize,
    pub type_uti: String,
    pub uuid: String,
}

/// What a skipped run holds.
pub struct SkippedView {
    pub pos: usize,
    pub type_uti: Seq<char>,
    pub uuid: Seq<char>,
}

/// The view of a skipped run.
pub open spec fn skipped_view(s: SkippedRun) -> SkippedView {
    SkippedView { pos: s.pos, type_uti: s.type_uti@, uuid: s.uuid@ }
}

/// The views of skipped runs.
pub open spec fn skipped_views(s: Seq<SkippedRun>) -> Seq<SkippedView> {
    s.map_values(|r: SkippedRun| skipped_view(r))
}

/// The skipped attachment a run starting at `pos` names, if its type is skipped.
pub open spec fn run_skipped(run: Seq<u8>, pos: usize) -> Option<SkippedView> {
    match get_bytes(parse_message(run), 12) {
        None => None,
        Some(a) => {
            let af = parse_message(a);
            let t = string_or_empty(af, 2);
            if is_skipped_type(t) {
                Some(SkippedView { pos, type_uti: t, uuid: string_or_empty(af, 1) })
            } else {
                None
            }
        },
    }
}

/// Where the runs end: their lengths summed, wrapping at the width of `usize`.
pub open spec fn runs_end_of(runs: Seq<Seq<u8>>) -> usize
    decreases runs.len(),
{
    if runs.len() == 0 {
        0
    } else {
        usize_specs::wrapping_add(runs_end_of(runs.drop_last()), run_length(runs.last()))
    }
}

/// The skipped attachments the runs name, each at the position its run starts.
pub open spec fn skipped_of(runs: Seq<Seq<u8>>) -> Seq<SkippedView>
    decreases runs.len(),
{
    if runs.len() == 0 {
        Seq::empty()
    } else {
        match run_skipped(runs.last(), runs_end_of(runs.drop_last())) {
            Some(s) => skipped_of(runs.drop_last()).push(s),
            None => skipped_of(runs.drop_last()),
        }
    }
}

/// The skipped attachments of a note document, when it has a Content message.
pub open spec fn note_skipped(data: Seq<u8>) -> Option<Seq<SkippedView>> {
    match content_fields(data) {
        Some(cf) => Some(skipped_of(get_all_bytes(cf, 5))),
        None => None,
    }
}

/// The skipped attachments of a decompressed note document (`None` when it has no Content
/// message): the runs naming an inline hashtag or mention, with where each run starts.
pub fn skipped_attachments(data: &[u8]) -> (r: Option<Vec<SkippedRun>>)
    ensures
        match r {
            Some(v) => note_skipped(data@) == Some(skipped_views(v@)),
            None => note_skipped(data@) is None,
        },
{
    let doc = parse_checked(data);
    let note_data = match proto_get_bytes(&doc, 2) {
        Some(b) => b,
        None => return None,
    };
    let note = parse_checked(note_data);
    let content_data = match proto_get_bytes(&note, 3) {
        Some(b) => b,
        None => return None,
    };
    let content = parse_checked(content_data);
    let runs = proto_get_all_bytes(&content, 5);
    let ghost rs = get_all_bytes(parse_message(content_data@), 5);
    assert(runs@.len() == rs.len());
    let mut out: Vec<SkippedRun> = Vec::new();
    let mut pos: usize = 0;
    let mut i: usize = 0;
    proof {
        assert(rs.take(0) =~= Seq::<Seq<u8>>::empty());
        assert(skipped_views(out@) =~= Seq::<SkippedView>::empty());
    }
    while i < runs.len()
        invariant
            i <= rs.len(),
            runs@.len() == rs.len(),
            forall|k: int| 0 <= k < rs.len() ==> (#[trigger] runs@[k])@ == rs[k],
            pos == runs_end_of(rs.take(i as int)),
            skipped_views(out@) == skipped_of(rs.take(i as int)),
        decreases rs.len() - i,
    {
        proof {
            assert(rs.take(i + 1).drop_last() =~= rs.take(i as int));
            assert(rs.take(i + 1).last() == rs[i as int]);
        }
        let rf = parse_checked(runs[i]);
        let length = varint_or_default(&rf, 1, 1) as usize;
        match proto_get_bytes(&rf, 12) {
            Some(ad) => {
                let af = parse_checked(ad);
                let type_uti = string_or_default(&af, 2);
                if is_skipped(&type_uti) {
                    let uuid = string_or_default(&af, 1);
                    let ghost before = skipped_views(out@);
                    out.push(SkippedRun { pos, type_uti, uuid });
                    proof {
                        assert(skipped_views(out@) =~= before.push(
                            run_skipped(rs[i as int], runs_end_of(rs.take(i as int)))->0,
                        ));
                    }
                }
            },
            None => {},
        }
        pos = pos.wrapping_add(length);
        i = i + 1;
    }
    proof {
        assert(rs.take(i as int) =~= rs);
    }
    Some(out)
}

/// The character indices of the attachment markers (U+FFFC) in a note's text.
pub fn marker_indices(text: &str) -> (r: Vec<usize>)
    ensures
        r@.len() == marker_positions(text@).len(),
        forall|k: int| 0 <= k < r@.len() ==> r@[k] as int == marker_positions(text@)[k],
{
    let cs = chars_of(text);
    find_markers(cs.as_slice())
}

/// Whether an attachment sits at `p`.
pub open spec fn attachment_at(atts: Seq<AttachmentView>, p: usize) -> bool {
    exists|i: int| 0 <= i < atts.len() && atts[i].position == p
}

/// Whether a skipped run starts at `p`.
pub open spec fn skipped_at(skips: Seq<SkippedView>, p: usize) -> bool {
    exists|i: int| 0 <= i < skips.len() && skips[i].pos == p
}

/// The markers that neither an attachment nor a skipped run accounts for, in order.
pub open spec fn unmatched_of(marks: Seq<usize>, atts: Seq<AttachmentView>, skips: Seq<SkippedView>) -> Seq<usize>
    decreases marks.len(),
{
    if marks.len() == 0 {
        Seq::empty()
    } else {
        let rest = unmatched_of(marks.drop_last(), atts, skips);
        let p = marks.last();
        if attachment_at(atts, p) || skipped_at(skips, p) {
            rest
        } else {
            rest.push(p)
        }
    }
}

/// The marker positions that neither an attachment nor a skipped run accounts for.
pub fn unmatched_markers(marks: &Vec<usize>, atts: &Vec<AttachmentPosition>, skips: &Vec<SkippedRun>) -> (r: Vec<usize>)
    ensures
        r@ == unmatched_of(marks@, attachment_views(atts@), skipped_views(skips@)),
{
    let ghost av = attachment_views(atts@);
    let ghost sv = skipped_views(skips@);
    let mut out: Vec<usize> = Vec::new();
    let mut i: usize = 0;
    proof {
        assert(marks@.take(0) =~= Seq::<usize>::empty());
    }
    while i < marks.len()
        invariant
            i <= marks@.len(),
            av == attachment_views(atts@),
            sv == skipped_views(skips@),
            out@ == unmatched_of(marks@.take(i as int), av, sv),
        decreases marks@.len() - i,
    {
        proof {
            assert(marks@.take(i + 1).drop_last() =~= marks@.take(i as int));
            assert(marks@.take(i + 1).last() == marks@[i as int]);
        }
        let p = marks[i];
        let mut found = false;
        let mut j: usize = 0;
        while j < atts.len()
            invariant
                j <= atts@.len(),
                av == attachment_views(atts@),
                found == exists|k: int| 0 <= k < j && av[k].position == p,
            decreases atts@.len() - j,
        {
            proof {
                assert(av[j as int] == atts@[j as int]@);
            }
            if atts[j].position == p {
                found = true;
            }
            j = j + 1;
        }
        let mut k: usize = 0;
        while k < skips.len()
            invariant
                k <= skips@.len(),
                sv == skipped_views(skips@),
                found == ((exists|m: int| 0 <= m < av.len() && av[m].position == p) || exists|m: int|
                    0 <= m < k && sv[m].pos == p),
                av.len() == atts@.len(),
            decreases skips@.len() - k,
        {
            proof {
                assert(sv[k as int] == skipped_view(skips@[k as int]));
            }
            if skips[k].pos == p {
                found = true;
            }
            k = k + 1;
        }
        if !found {
            out.push(p);
        }
        i = i + 1;
    }
    proof {
        assert(marks@.take(i as int) =~= marks@);
    }
    out
}

/// The index of the first of `runs`, from `i` on, that covers position `p`.
pub open spec fn run_covering(runs: Seq<StyleRunView>, p: usize, i: int) -> Option<int>
    decreases runs.len() - i,
{
    if i < 0 || i >= runs.len() {
        None
    } else if runs[i].offset <= p && p < runs[i].offset + runs[i].length {
        Some(i)
    } else {
        run_covering(runs, p, i + 1)
    }
}

/// The first style run that covers position `p` (from its offset, for its length).
pub fn run_at(runs: &Vec<StyleRun>, p: usize) -> (r: Option<usize>)
    ensures
        match r {
            Some(i) => run_covering(run_views(runs@), p, 0) == Some(i as int),
            None => run_covering(run_views(runs@), p, 0) is None,
        },
{
    let ghost rv = run_views(runs@);
    let mut i: usize = 0;
    while i < runs.len()
        invariant
            i <= runs@.len(),
            rv == run_views(runs@),
            run_covering(rv, p, 0) == run_covering(rv, p, i as int),
        decreases runs@.len() - i,
    {
        proof {
            assert(rv[i as int] == runs@[i as int]@);
        }
        if runs[i].offset <= p && p - runs[i].offset < runs[i].length {
            return Some(i);
        }
        i = i + 1;
    }
    None
}

} // verus!
