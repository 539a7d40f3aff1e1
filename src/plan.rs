//! Rewriting one file: each glob record of the file becomes a change that
//! replaces its wildcard, and the changes are applied together.
use vstd::prelude::*;
use vstd::utf8::encode_utf8;
use crate::extent::{is_first_wildcard, resolve_extent};
use crate::names::{format_names, formatted};
use crate::patch::{apply, edits, in_bounds, disjoint, patched, Change, Edit, PatchError};
use crate::record::{same_text, views, Extent, GlobRecord, RecordView};

verus! {

/// Where the first wildcard of `slice` stands, if it holds one.
pub open spec fn wildcard_in(slice: Seq<u8>) -> Option<int> {
    if exists|i: int| is_first_wildcard(slice, i) {
        Some(choose|i: int| is_first_wildcard(slice, i))
    } else {
        None
    }
}

/// The change that puts the names of `g` in place of the wildcard at `p`.
pub open spec fn wildcard_edit(g: RecordView, p: int) -> Edit {
    Edit { start: p, end: p + 1, text: encode_utf8(formatted(g.names)) }
}

/// The change that puts the names of `g` in place of its whole range.
pub open spec fn exact_edit(g: RecordView) -> Edit {
    Edit { start: g.start as int, end: g.end as int, text: encode_utf8(formatted(g.names)) }
}

/// The changes that the records of `gs` for `file` make to `content`: an
/// exact range is replaced as it stands, a coarse span at its first
/// wildcard. With them come the indices of the coarse records whose span
/// holds no wildcard; an error where a range of the file ends past the
/// content.
pub open spec fn plan(content: Seq<u8>, gs: Seq<RecordView>, file: Seq<char>) -> Result<(Seq<Edit>, Seq<int>), PatchError>
    decreases gs.len(),
{
    if gs.len() == 0 {
        Ok((Seq::empty(), Seq::empty()))
    } else {
        match plan(content, gs.drop_last(), file) {
            Err(e) => Err(e),
            Ok((es, skipped)) => {
                let g = gs.last();
                if g.file != file {
                    Ok((es, skipped))
                } else if g.end > content.len() {
                    Err(PatchError::OutOfBounds)
                } else if g.extent == Extent::Exact {
                    Ok((es.push(exact_edit(g)), skipped))
                } else {
                    match wildcard_in(content.subrange(g.start as int, g.end as int)) {
                        None => Ok((es, skipped.push(gs.len() - 1))),
                        Some(i) => Ok((es.push(wildcard_edit(g, g.start + i)), skipped)),
                    }
                }
            },
        }
    }
}

/// The new content of `file`, with the indices of the records that were
/// passed over, or why the file cannot be rewritten.
pub open spec fn rewritten(content: Seq<u8>, gs: Seq<RecordView>, file: Seq<char>) -> Result<(Seq<u8>, Seq<int>), PatchError> {
    match plan(content, gs, file) {
        Err(e) => Err(e),
        Ok((es, skipped)) => if !in_bounds(content.len() as int, es) {
            Err(PatchError::OutOfBounds)
        } else if !disjoint(es) {
            Err(PatchError::Overlap)
        } else {
            Ok((patched(content, es), skipped))
        },
    }
}

/// A rewritten file, and the records whose wildcard was not found.
pub struct Rewrite {
    pub content: Vec<u8>,
    pub skipped: Vec<usize>,
}

/// The indices, as integers.
pub open spec fn indices(v: Seq<usize>) -> Seq<int> {
    v.map_values(|k: usize| k as int)
}

proof fn lemma_plan_error_stays(content: Seq<u8>, gs: Seq<RecordView>, file: Seq<char>, k: int)
    requires
        0 <= k <= gs.len(),
        plan(content, gs.take(k), file) is Err,
    ensures
        plan(content, gs, file) == plan(content, gs.take(k), file),
    decreases gs.len() - k,
{
    if k < gs.len() {
        assert(gs.take(k + 1).drop_last() =~= gs.take(k));
        lemma_plan_error_stays(content, gs, file, k + 1);
    } else {
        assert(gs.take(k) =~= gs);
    }
}

/// The change that replaces the whole range of `g`.
pub fn exact_change(g: &GlobRecord) -> (c: Change)
    requires
        g@.wf(),
    ensures
        c@ == exact_edit(g@),
{
    let text = format_names(&g.names);
    Change { start: g.start, end: g.end, text: text.as_str().as_bytes_vec() }
}

/// The change that replaces the first wildcard within the span of `g`, or
/// `None` where the span holds none.
pub fn resolved_change(content: &[u8], g: &GlobRecord) -> (r: Option<Change>)
    requires
        g@.wf(),
        g.end <= content@.len(),
    ensures
        match r {
            Some(c) => wildcard_in(content@.subrange(g.start as int, g.end as int)) == Some(c@.start - g.start)
                && c@ == wildcard_edit(g@, c@.start),
            None => wildcard_in(content@.subrange(g.start as int, g.end as int)) is None,
        },
{
    let slice = &content[g.start..g.end];
    match resolve_extent(g.start, slice) {
        None => {
            assert(!exists|i: int| is_first_wildcard(slice@, i));
            None
        },
        Some(p) => {
            let ghost i = p - g.start;
            assert forall|j: int| is_first_wildcard(slice@, j) implies j == i by {
                if j < i {
                    assert(slice@[j] != crate::extent::WILDCARD);
                } else if j > i {
                    assert(slice@[i] != crate::extent::WILDCARD);
                }
            }
            let text = format_names(&g.names);
            let c = Change { start: p, end: p + 1, text: text.as_str().as_bytes_vec() };
            Some(c)
        },
    }
}

/// Rewrites `content`, the text of `file`, by the records of `records` that
/// stand in `file`: an exact range is replaced by the record's names as it
/// stands; a coarse span has its first wildcard replaced, and one that holds
/// none is passed over and listed. A range that ends past the content, or
/// changes that collide, leave the file untouched.
pub fn rewrite_file(content: &[u8], records: &Vec<GlobRecord>, file: &str) -> (r: Result<Rewrite, PatchError>)
    requires
        forall|i: int| 0 <= i < records@.len() ==> (#[trigger] records@[i])@.wf(),
    ensures
        match r {
            Ok(w) => rewritten(content@, views(records@), file@) == Ok::<(Seq<u8>, Seq<int>), PatchError>(
                (w.content@, indices(w.skipped@)),
            ),
            Err(e) => rewritten(content@, views(records@), file@) == Err::<(Seq<u8>, Seq<int>), PatchError>(e),
        },
{
    let ghost gs = views(records@);
    let mut changes: Vec<Change> = Vec::new();
    let mut skipped: Vec<usize> = Vec::new();
    let mut i: usize = 0;
    assert(gs.take(0) =~= Seq::<RecordView>::empty());
    assert(edits(changes@) =~= Seq::<Edit>::empty());
    assert(indices(skipped@) =~= Seq::<int>::empty());
    while i < records.len()
        invariant
            gs == views(records@),
            i <= records@.len(),
            forall|k: int| 0 <= k < records@.len() ==> (#[trigger] records@[k])@.wf(),
            plan(content@, gs.take(i as int), file@) == Ok::<(Seq<Edit>, Seq<int>), PatchError>(
                (edits(changes@), indices(skipped@)),
            ),
        decreases records@.len() - i,
    {
        let g = &records[i];
        proof {
            let t = gs.take(i + 1);
            assert(t.drop_last() =~= gs.take(i as int));
            assert(t.last() == g@);
            assert(g@.wf());
        }
        if same_text(g.file.as_str(), file) {
            if g.end > content.len() {
                proof {
                    lemma_plan_error_stays(content@, gs, file@, i + 1);
                }
                return Err(PatchError::OutOfBounds);
            }
            match g.extent {
                Extent::Exact => {
                    let c = exact_change(g);
                    let ghost before = changes@;
                    changes.push(c);
                    assert(edits(changes@) =~= edits(before).push(c@));
                },
                Extent::Coarse => {
                    match resolved_change(content, g) {
                        None => {
                            let ghost before = skipped@;
                            skipped.push(i);
                            assert(indices(skipped@) =~= indices(before).push(i as int));
                        },
                        Some(c) => {
                            let ghost before = changes@;
                            changes.push(c);
                            assert(edits(changes@) =~= edits(before).push(c@));
                        },
                    }
                },
            }
        }
        i = i + 1;
    }
    assert(gs.take(i as int) =~= gs);
    match apply(content, &changes) {
        Ok(out) => Ok(Rewrite { content: out, skipped }),
        Err(e) => Err(e),
    }
}

} // verus!
