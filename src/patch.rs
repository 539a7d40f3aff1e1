//! The patcher: applies a set of byte-range edits to one file's content.
use vstd::prelude::*;

verus! {

/// One edit of a file: the half-open byte range `[start, end)` is replaced by
/// `text`.
pub struct Change {
    pub start: usize,
    pub end: usize,
    pub text: Vec<u8>,
}

/// A change as plain values.
pub struct Edit {
    pub start: int,
    pub end: int,
    pub text: Seq<u8>,
}

impl View for Change {
    type V = Edit;

    open spec fn view(&self) -> Edit {
        Edit { start: self.start as int, end: self.end as int, text: self.text@ }
    }
}

/// What each change of `cs` does.
pub open spec fn edits(cs: Seq<Change>) -> Seq<Edit> {
    cs.map_values(|c: Change| c@)
}

/// Why a set of changes cannot be applied to a file.
#[derive(Debug, Clone, Copy, PartialEq, Eq, Structural)]
pub enum PatchError {
    /// A change starts after it ends, or ends past the end of the content.
    OutOfBounds,
    /// Two changes overlap, or start at the same offset.
    Overlap,
}

/// Every change lies within content of length `len`.
pub open spec fn in_bounds(len: int, cs: Seq<Edit>) -> bool {
    forall|i: int| 0 <= i < cs.len() ==> 0 <= #[trigger] cs[i].start <= cs[i].end <= len
}

/// Two changes collide: their ranges share a byte, or they start at the same
/// offset (two insertions there would have no order).
pub open spec fn conflict(a: Edit, b: Edit) -> bool {
    a.start == b.start || (a.start < b.end && b.start < a.end)
}

/// No two changes of `cs` collide.
pub open spec fn disjoint(cs: Seq<Edit>) -> bool {
    forall|i: int, j: int|
        0 <= i < cs.len() && 0 <= j < cs.len() && i != j ==> !conflict(#[trigger] cs[i], #[trigger] cs[j])
}

/// A change set that the patcher accepts for content of length `len`.
pub open spec fn valid(len: int, cs: Seq<Edit>) -> bool {
    in_bounds(len, cs) && disjoint(cs)
}

/// Each change ends at or before the start of every later one, and starts
/// strictly before it.
pub open spec fn chained(s: Seq<Edit>) -> bool {
    forall|i: int, j: int|
        0 <= i < j < s.len() ==> #[trigger] s[i].end <= #[trigger] s[j].start && s[i].start < s[j].start
}

/// `c` placed into `s` before the first change that starts at or after it.
pub open spec fn insert_sorted(s: Seq<Edit>, c: Edit) -> Seq<Edit>
    decreases s.len(),
{
    if s.len() == 0 {
        seq![c]
    } else if c.start <= s[0].start {
        seq![c] + s
    } else {
        seq![s[0]] + insert_sorted(s.drop_first(), c)
    }
}

/// `cs` ordered by start offset.
pub open spec fn sorted(cs: Seq<Edit>) -> Seq<Edit>
    decreases cs.len(),
{
    if cs.len() == 0 {
        Seq::empty()
    } else {
        insert_sorted(sorted(cs.drop_last()), cs.last())
    }
}

/// Where copying resumes after the first `i` changes of `s`.
pub open spec fn cursor(s: Seq<Edit>, i: int) -> int {
    if i <= 0 {
        0
    } else {
        s[i - 1].end
    }
}

/// The output produced by the first `i` changes of `s`: each one's
/// preceding untouched bytes, then its replacement text.
pub open spec fn emitted(content: Seq<u8>, s: Seq<Edit>, i: int) -> Seq<u8>
    decreases i,
{
    if i <= 0 {
        Seq::empty()
    } else {
        emitted(content, s, i - 1) + content.subrange(cursor(s, i - 1), s[i - 1].start)
            + s[i - 1].text
    }
}

/// `content` with the changes of `s`, taken in order, applied.
pub open spec fn spliced(content: Seq<u8>, s: Seq<Edit>) -> Seq<u8> {
    emitted(content, s, s.len() as int) + content.subrange(cursor(s, s.len() as int), content.len() as int)
}

/// `content` with the changes `cs` applied.
pub open spec fn patched(content: Seq<u8>, cs: Seq<Edit>) -> Seq<u8> {
    spliced(content, sorted(cs))
}

proof fn lemma_insert_at(s: Seq<Edit>, c: Edit, pos: int)
    requires
        0 <= pos <= s.len(),
        forall|j: int| 0 <= j < pos ==> #[trigger] s[j].start < c.start,
        pos == s.len() || c.start <= s[pos].start,
    ensures
        insert_sorted(s, c) =~= s.insert(pos, c),
    decreases s.len(),
{
    if pos > 0 {
        assert(s[0].start < c.start);
        let t = s.drop_first();
        assert forall|j: int| 0 <= j < pos - 1 implies #[trigger] t[j].start < c.start by {
            assert(t[j] == s[j + 1]);
        }
        lemma_insert_at(t, c, pos - 1);
    }
}

proof fn lemma_insert_pos(s: Seq<Edit>, c: Edit) -> (pos: int)
    ensures
        0 <= pos <= s.len(),
        insert_sorted(s, c) =~= s.insert(pos, c),
    decreases s.len(),
{
    if s.len() == 0 || c.start <= s[0].start {
        0
    } else {
        let p = lemma_insert_pos(s.drop_first(), c);
        assert(insert_sorted(s, c) =~= s.insert(p + 1, c));
        p + 1
    }
}

#[verifier::rlimit(30)]
proof fn lemma_insert_chained(s: Seq<Edit>, c: Edit)
    requires
        chained(s),
        forall|x: Edit| s.contains(x) ==> !conflict(c, x) && x.start <= x.end,
        c.start <= c.end,
    ensures
        chained(insert_sorted(s, c)),
    decreases s.len(),
{
    if s.len() == 0 {
        assert(insert_sorted(s, c) =~= seq![c]);
    } else {
        assert(s.contains(s[0]));
        if c.start <= s[0].start {
            let r = seq![c] + s;
            assert(insert_sorted(s, c) == r);
            assert forall|i: int, j: int| 0 <= i < j < r.len() implies #[trigger] r[i].end <= #[trigger] r[j].start
                && r[i].start < r[j].start by {
                if i > 0 {
                    assert(r[i] == s[i - 1] && r[j] == s[j - 1]);
                } else if j > 1 {
                    assert(r[j] == s[j - 1]);
                    assert(s[0].end <= s[j - 1].start);
                }
            }
            assert(chained(r));
        } else {
            let t = s.drop_first();
            assert forall|x: Edit| t.contains(x) implies !conflict(c, x) && x.start <= x.end by {
                let k = choose|k: int| 0 <= k < t.len() && t[k] == x;
                assert(s[k + 1] == x);
                assert(s.contains(x));
            }
            assert(chained(t)) by {
                assert forall|i: int, j: int| 0 <= i < j < t.len() implies #[trigger] t[i].end <= #[trigger] t[j].start
                    && t[i].start < t[j].start by {
                    assert(t[i] == s[i + 1] && t[j] == s[j + 1]);
                }
            }
            lemma_insert_chained(t, c);
            let rest = insert_sorted(t, c);
            let pos = lemma_insert_pos(t, c);
            let r = seq![s[0]] + rest;
            assert(insert_sorted(s, c) == r);
            assert forall|i: int, j: int| 0 <= i < j < r.len() implies #[trigger] r[i].end <= #[trigger] r[j].start
                && r[i].start < r[j].start by {
                if i > 0 {
                    assert(r[i] == rest[i - 1] && r[j] == rest[j - 1]);
                } else {
                    assert(r[j] == rest[j - 1]);
                    if j - 1 < pos {
                        assert(rest[j - 1] == t[j - 1] && t[j - 1] == s[j]);
                    } else if j - 1 > pos {
                        assert(rest[j - 1] == t[j - 2] && t[j - 2] == s[j - 1]);
                    }
                }
            }
            assert(chained(r));
        }
    }
}

/// Ordering a change set keeps its changes, and a valid set comes out with
/// each change ending before the next one starts.
pub proof fn lemma_sorted(cs: Seq<Edit>)
    ensures
        sorted(cs).to_multiset() =~= cs.to_multiset(),
        sorted(cs).len() == cs.len(),
        forall|x: Edit| sorted(cs).contains(x) <==> cs.contains(x),
        (forall|i: int| 0 <= i < cs.len() ==> #[trigger] cs[i].start <= cs[i].end) && disjoint(cs) ==> chained(
            sorted(cs),
        ),
    decreases cs.len(),
{
    broadcast use vstd::seq_lib::group_to_multiset_ensures;

    if cs.len() > 0 {
        let init = cs.drop_last();
        let c = cs.last();
        lemma_sorted(init);
        let s = sorted(init);
        let pos = lemma_insert_pos(s, c);
        let r = s.insert(pos, c);
        assert(r.remove(pos) =~= s);
        assert(r.to_multiset().remove(c) =~= s.to_multiset());
        assert(r[pos] == c && r.contains(c));
        assert(r.to_multiset() =~= s.to_multiset().insert(c));
        assert(cs =~= init.push(c));
        assert forall|x: Edit| r.contains(x) <==> cs.contains(x) by {
            assert(r.to_multiset().count(x) == cs.to_multiset().count(x));
        }
        if (forall|i: int| 0 <= i < cs.len() ==> #[trigger] cs[i].start <= cs[i].end) && disjoint(cs) {
            assert(disjoint(init)) by {
                assert forall|i: int, j: int|
                    0 <= i < init.len() && 0 <= j < init.len() && i != j implies !conflict(
                    #[trigger] init[i],
                    #[trigger] init[j],
                ) by {
                    assert(init[i] == cs[i] && init[j] == cs[j]);
                }
            }
            assert forall|x: Edit| s.contains(x) implies !conflict(c, x) && x.start <= x.end by {
                assert(init.contains(x));
                let k = choose|k: int| 0 <= k < init.len() && init[k] == x;
                assert(cs[k] == x);
                assert(cs[cs.len() - 1] == c);
            }
            assert(c.start <= c.end) by {
                assert(cs[cs.len() - 1] == c);
            }
            lemma_insert_chained(s, c);
        }
    }
}

/// The changes of `cs` that `order` lists, in that order.
pub open spec fn picked(cs: Seq<Edit>, order: Seq<usize>) -> Seq<Edit> {
    order.map_values(|i: usize| cs[i as int])
}

pub(crate) fn extend_from(out: &mut Vec<u8>, src: &[u8], from: usize, to: usize)
    requires
        from <= to <= src@.len(),
    ensures
        final(out)@ == old(out)@ + src@.subrange(from as int, to as int),
{
    let ghost before = out@;
    let mut i: usize = from;
    while i < to
        invariant
            from <= i <= to <= src@.len(),
            out@ == before + src@.subrange(from as int, i as int),
        decreases to - i,
    {
        out.push(src[i]);
        i = i + 1;
        assert(out@ =~= before + src@.subrange(from as int, i as int));
    }
}

fn all_in_bounds(len: usize, changes: &Vec<Change>) -> (r: bool)
    ensures
        r == in_bounds(len as int, edits(changes@)),
{
    let mut i: usize = 0;
    while i < changes.len()
        invariant
            i <= changes@.len(),
            edits(changes@).len() == changes@.len(),
            forall|k: int| 0 <= k < i ==> #[trigger] edits(changes@)[k].start <= edits(changes@)[k].end <= len,
        decreases changes.len() - i,
    {
        assert(edits(changes@)[i as int] == changes@[i as int]@);
        if changes[i].start > changes[i].end || changes[i].end > len {
            assert(!in_bounds(len as int, edits(changes@))) by {
                let e = edits(changes@);
                assert(0 <= i < e.len());
                assert(e[i as int].start == changes@[i as int].start as int);
                assert(e[i as int].end == changes@[i as int].end as int);
                assert(!(e[i as int].start <= e[i as int].end <= len));
            }
            return false;
        }
        i = i + 1;
    }
    true
}

fn collides(a: &Change, b: &Change) -> (r: bool)
    ensures
        r == conflict(a@, b@),
{
    a.start == b.start || (a.start < b.end && b.start < a.end)
}

fn any_conflict(changes: &Vec<Change>) -> (r: bool)
    ensures
        r == !disjoint(edits(changes@)),
{
    let n = changes.len();
    let mut i: usize = 0;
    while i < n
        invariant
            n == changes@.len(),
            i <= n,
            forall|a: int, b: int|
                0 <= a < i && 0 <= b < n && a != b ==> !conflict(#[trigger] edits(changes@)[a], #[trigger] edits(changes@)[b]),
        decreases n - i,
    {
        let mut j: usize = 0;
        while j < n
            invariant
                n == changes@.len(),
                i < n,
                j <= n,
                forall|a: int, b: int|
                    0 <= a < i && 0 <= b < n && a != b ==> !conflict(#[trigger] edits(changes@)[a], #[trigger] edits(changes@)[b]),
                forall|b: int| 0 <= b < j && i != b ==> !conflict(edits(changes@)[i as int], #[trigger] edits(changes@)[b]),
            decreases n - j,
        {
            assert(edits(changes@)[i as int] == changes@[i as int]@);
            assert(edits(changes@)[j as int] == changes@[j as int]@);
            if i != j && collides(&changes[i], &changes[j]) {
                return true;
            }
            j = j + 1;
        }
        i = i + 1;
    }
    false
}

/// The indices of `changes`, listed in the order of `sorted`.
fn sort_order(changes: &Vec<Change>) -> (order: Vec<usize>)
    ensures
        order@.len() == changes@.len(),
        forall|k: int| 0 <= k < order@.len() ==> #[trigger] order@[k] < changes@.len(),
        picked(edits(changes@), order@) == sorted(edits(changes@)),
{
    let ghost cs = edits(changes@);
    let mut order: Vec<usize> = Vec::new();
    let mut i: usize = 0;
    assert(picked(cs, order@) =~= sorted(cs.take(0)));
    while i < changes.len()
        invariant
            cs == edits(changes@),
            i <= cs.len(),
            order@.len() == i,
            forall|k: int| 0 <= k < order@.len() ==> #[trigger] order@[k] < cs.len(),
            picked(cs, order@) == sorted(cs.take(i as int)),
        decreases cs.len() - i,
    {
        let ghost s = picked(cs, order@);
        let start = changes[i].start;
        let mut j: usize = 0;
        while j < order.len() && changes[order[j]].start < start
            invariant
                cs == edits(changes@),
                i < cs.len(),
                start == cs[i as int].start,
                j <= order@.len(),
                s == picked(cs, order@),
                forall|k: int| 0 <= k < order@.len() ==> #[trigger] order@[k] < cs.len(),
                forall|k: int| 0 <= k < j ==> #[trigger] s[k].start < start,
            decreases order@.len() - j,
        {
            j = j + 1;
        }
        proof {
            lemma_insert_at(s, cs[i as int], j as int);
            assert(cs.take(i + 1).drop_last() =~= cs.take(i as int));
            assert(cs.take(i + 1).last() == cs[i as int]);
        }
        order.insert(j, i);
        i = i + 1;
        assert(picked(cs, order@) =~= s.insert(j as int, cs[i - 1]));
    }
    assert(cs.take(i as int) =~= cs);
    order
}

/// Applies `changes` to `content`. The changes may come in any order; they
/// are taken by start offset. Out-of-range changes are refused before
/// colliding ones, and nothing is produced for a refused set.
pub fn apply(content: &[u8], changes: &Vec<Change>) -> (r: Result<Vec<u8>, PatchError>)
    ensures
        match r {
            Ok(out) => valid(content@.len() as int, edits(changes@)) && out@ == patched(content@, edits(changes@)),
            Err(PatchError::OutOfBounds) => !in_bounds(content@.len() as int, edits(changes@)),
            Err(PatchError::Overlap) => in_bounds(content@.len() as int, edits(changes@)) && !disjoint(edits(changes@)),
        },
{
    if !all_in_bounds(content.len(), changes) {
        return Err(PatchError::OutOfBounds);
    }
    if any_conflict(changes) {
        return Err(PatchError::Overlap);
    }
    let ghost cs = edits(changes@);
    let ghost s = sorted(cs);
    let order = sort_order(changes);
    proof {
        lemma_sorted(cs);
        assert forall|k: int| 0 <= k < s.len() implies #[trigger] s[k].start <= s[k].end <= content@.len() by {
            assert(s.contains(s[k]));
            assert(cs.contains(s[k]));
        }
    }
    let mut out: Vec<u8> = Vec::new();
    let mut cur: usize = 0;
    let mut k: usize = 0;
    while k < order.len()
        invariant
            cs == edits(changes@),
            s == sorted(cs),
            s == picked(cs, order@),
            s.len() == order@.len(),
            order@.len() == cs.len(),
            forall|m: int| 0 <= m < order@.len() ==> #[trigger] order@[m] < cs.len(),
            chained(s),
            forall|m: int| 0 <= m < s.len() ==> #[trigger] s[m].start <= s[m].end <= content@.len(),
            k <= order@.len(),
            cur == cursor(s, k as int),
            cur <= content@.len(),
            out@ == emitted(content@, s, k as int),
        decreases order@.len() - k,
    {
        let c = &changes[order[k]];
        assert(c@ == s[k as int]);
        assert(s[k as int].start <= s[k as int].end <= content@.len());
        assert(c.start <= c.end <= content@.len());
        assert(cur <= c.start) by {
            if k > 0 {
                assert(s[k - 1].end <= s[k as int].start);
            }
        }
        extend_from(&mut out, content, cur, c.start);
        extend_from(&mut out, c.text.as_slice(), 0, c.text.len());
        assert(c.text@.subrange(0, c.text@.len() as int) =~= c.text@);
        cur = c.end;
        k = k + 1;
    }
    extend_from(&mut out, content, cur, content.len());
    Ok(out)
}

/// Applying no changes leaves the content as it is.
pub proof fn lemma_identity(content: Seq<u8>)
    ensures
        valid(content.len() as int, Seq::<Edit>::empty()),
        patched(content, Seq::<Edit>::empty()) == content,
{
    assert(sorted(Seq::<Edit>::empty()) =~= Seq::<Edit>::empty());
    assert(patched(content, Seq::<Edit>::empty()) =~= content);
}

proof fn lemma_chained_unique(s1: Seq<Edit>, s2: Seq<Edit>)
    requires
        chained(s1),
        chained(s2),
        s1.to_multiset() == s2.to_multiset(),
    ensures
        s1 == s2,
    decreases s1.len(),
{
    broadcast use vstd::seq_lib::group_to_multiset_ensures;

    s1.to_multiset_ensures();
    s2.to_multiset_ensures();
    assert(s1.len() == s2.len());
    if s1.len() == 0 {
        assert(s1 =~= s2);
    } else {
        assert(s1.to_multiset().count(s1[0]) > 0);
        assert(s2.contains(s1[0]));
        assert(s2.to_multiset().count(s2[0]) > 0);
        assert(s1.contains(s2[0]));
        let j = choose|j: int| 0 <= j < s2.len() && s2[j] == s1[0];
        let i = choose|i: int| 0 <= i < s1.len() && s1[i] == s2[0];
        if i > 0 {
            assert(s1[0].end <= s1[i].start);
        }
        if j > 0 {
            assert(s2[0].end <= s2[j].start);
            assert(false);
        }
        assert(s1[0] == s2[0]);
        let t1 = s1.drop_first();
        let t2 = s2.drop_first();
        assert(s1.remove(0) =~= t1);
        assert(s2.remove(0) =~= t2);
        assert(t1.to_multiset() =~= t2.to_multiset());
        assert(chained(t1)) by {
            assert forall|a: int, b: int| 0 <= a < b < t1.len() implies #[trigger] t1[a].end <= #[trigger] t1[b].start
                && t1[a].start < t1[b].start by {
                assert(t1[a] == s1[a + 1] && t1[b] == s1[b + 1]);
            }
        }
        assert(chained(t2)) by {
            assert forall|a: int, b: int| 0 <= a < b < t2.len() implies #[trigger] t2[a].end <= #[trigger] t2[b].start
                && t2[a].start < t2[b].start by {
                assert(t2[a] == s2[a + 1] && t2[b] == s2[b + 1]);
            }
        }
        lemma_chained_unique(t1, t2);
        assert(s1 =~= seq![s1[0]] + t1);
        assert(s2 =~= seq![s2[0]] + t2);
    }
}

/// A valid change set stays valid, and gives the same content, in whatever
/// order its changes are listed.
pub proof fn lemma_order_independent(content: Seq<u8>, cs1: Seq<Edit>, cs2: Seq<Edit>)
    requires
        valid(content.len() as int, cs1),
        cs2.to_multiset() == cs1.to_multiset(),
    ensures
        valid(content.len() as int, cs2),
        patched(content, cs2) == patched(content, cs1),
{
    broadcast use vstd::seq_lib::group_to_multiset_ensures;

    cs1.to_multiset_ensures();
    cs2.to_multiset_ensures();
    assert forall|x: Edit| cs2.contains(x) <==> cs1.contains(x) by {
        assert(cs2.to_multiset().count(x) == cs1.to_multiset().count(x));
        assert(cs2.contains(x) <==> cs2.to_multiset().count(x) > 0);
        assert(cs1.contains(x) <==> cs1.to_multiset().count(x) > 0);
    }
    assert(in_bounds(content.len() as int, cs2)) by {
        assert forall|i: int| 0 <= i < cs2.len() implies 0 <= #[trigger] cs2[i].start <= cs2[i].end <= content.len() by {
            assert(cs2.contains(cs2[i]));
            let k = choose|k: int| 0 <= k < cs1.len() && cs1[k] == cs2[i];
            assert(0 <= cs1[k].start <= cs1[k].end);
        }
    }
    assert(cs1.no_duplicates()) by {
        assert forall|i: int, j: int| 0 <= i < cs1.len() && 0 <= j < cs1.len() && i != j implies cs1[i]
            != cs1[j] by {
            assert(!conflict(cs1[i], cs1[j]));
        }
    }
    cs1.lemma_multiset_has_no_duplicates();
    cs2.lemma_multiset_has_no_duplicates_conv();
    assert(disjoint(cs2)) by {
        assert forall|i: int, j: int| 0 <= i < cs2.len() && 0 <= j < cs2.len() && i != j implies !conflict(
            #[trigger] cs2[i],
            #[trigger] cs2[j],
        ) by {
            assert(cs2.contains(cs2[i]) && cs2.contains(cs2[j]));
            let a = choose|a: int| 0 <= a < cs1.len() && cs1[a] == cs2[i];
            let b = choose|b: int| 0 <= b < cs1.len() && cs1[b] == cs2[j];
            assert(a != b);
            assert(!conflict(cs1[a], cs1[b]));
        }
    }
    lemma_sorted(cs1);
    lemma_sorted(cs2);
    lemma_chained_unique(sorted(cs1), sorted(cs2));
}


/// Some change of `cs` replaces the byte at `p`.
pub open spec fn covered(cs: Seq<Edit>, p: int) -> bool {
    exists|i: int| 0 <= i < cs.len() && #[trigger] cs[i].start <= p < cs[i].end
}

/// How much longer the content gets through `c`.
pub open spec fn growth(c: Edit) -> int {
    c.text.len() - (c.end - c.start)
}

/// How much longer the content before byte `p` gets through the changes of
/// `cs` that end at or before `p`.
pub open spec fn shift_before(cs: Seq<Edit>, p: int) -> int
    decreases cs.len(),
{
    if cs.len() == 0 {
        0
    } else {
        shift_before(cs.drop_last(), p) + if cs.last().end <= p {
            growth(cs.last())
        } else {
            0
        }
    }
}

spec fn prefix_growth(s: Seq<Edit>, k: int) -> int
    decreases k,
{
    if k <= 0 {
        0
    } else {
        prefix_growth(s, k - 1) + growth(s[k - 1])
    }
}

proof fn lemma_shift_insert(s: Seq<Edit>, c: Edit, pos: int, p: int)
    requires
        0 <= pos <= s.len(),
    ensures
        shift_before(s.insert(pos, c), p) == shift_before(s, p) + if c.end <= p {
            growth(c)
        } else {
            0
        },
    decreases s.len(),
{
    let r = s.insert(pos, c);
    if pos == s.len() {
        assert(r.drop_last() =~= s);
    } else {
        assert(r.drop_last() =~= s.drop_last().insert(pos, c));
        assert(r.last() == s.last());
        lemma_shift_insert(s.drop_last(), c, pos, p);
    }
}

proof fn lemma_shift_sorted(cs: Seq<Edit>, p: int)
    ensures
        shift_before(sorted(cs), p) == shift_before(cs, p),
    decreases cs.len(),
{
    if cs.len() > 0 {
        lemma_shift_sorted(cs.drop_last(), p);
        let pos = lemma_insert_pos(sorted(cs.drop_last()), cs.last());
        lemma_shift_insert(sorted(cs.drop_last()), cs.last(), pos, p);
    }
}

proof fn lemma_shift_prefix(s: Seq<Edit>, p: int, k: int, m: int)
    requires
        0 <= k <= s.len(),
        0 <= m <= s.len(),
        forall|j: int| 0 <= j < k ==> #[trigger] s[j].end <= p,
        forall|j: int| k <= j < s.len() ==> #[trigger] s[j].end > p,
    ensures
        shift_before(s.take(m), p) == prefix_growth(s, if m < k { m } else { k }),
    decreases m,
{
    if m > 0 {
        assert(s.take(m).drop_last() =~= s.take(m - 1));
        assert(s.take(m).last() == s[m - 1]);
        lemma_shift_prefix(s, p, k, m - 1);
    }
}

proof fn lemma_split_point(s: Seq<Edit>, p: int) -> (k: int)
    requires
        chained(s),
        forall|j: int| 0 <= j < s.len() ==> #[trigger] s[j].start <= s[j].end,
    ensures
        0 <= k <= s.len(),
        forall|j: int| 0 <= j < k ==> #[trigger] s[j].end <= p,
        forall|j: int| k <= j < s.len() ==> #[trigger] s[j].end > p,
    decreases s.len(),
{
    if s.len() == 0 {
        0
    } else {
        let t = s.drop_last();
        assert(chained(t)) by {
            assert forall|i: int, j: int| 0 <= i < j < t.len() implies #[trigger] t[i].end <= #[trigger] t[j].start
                && t[i].start < t[j].start by {
                assert(t[i] == s[i] && t[j] == s[j]);
            }
        }
        let k0 = lemma_split_point(t, p);
        assert forall|j: int| 0 <= j < k0 implies #[trigger] s[j].end <= p by {
            assert(t[j] == s[j]);
        }
        assert forall|j: int| k0 <= j < t.len() implies #[trigger] s[j].end > p by {
            assert(t[j] == s[j]);
        }
        if k0 < t.len() {
            assert(s[k0].end <= s[s.len() - 1].start);
            k0
        } else if s[s.len() - 1].end <= p {
            s.len() as int
        } else {
            k0
        }
    }
}

proof fn lemma_emitted_len(content: Seq<u8>, s: Seq<Edit>, k: int)
    requires
        chained(s),
        forall|j: int| 0 <= j < s.len() ==> 0 <= #[trigger] s[j].start <= s[j].end <= content.len(),
        0 <= k <= s.len(),
    ensures
        emitted(content, s, k).len() == cursor(s, k) + prefix_growth(s, k),
    decreases k,
{
    if k > 0 {
        lemma_emitted_len(content, s, k - 1);
        if k > 1 {
            assert(s[k - 2].end <= s[k - 1].start);
        }
        let c = s[k - 1];
        assert(0 <= c.start <= c.end <= content.len());
        assert(0 <= cursor(s, k - 1) <= c.start);
        assert(emitted(content, s, k) == emitted(content, s, k - 1) + content.subrange(cursor(s, k - 1), c.start)
            + c.text);
    }
}

proof fn lemma_gap_byte(content: Seq<u8>, s: Seq<Edit>, k: int, p: int)
    requires
        chained(s),
        forall|j: int| 0 <= j < s.len() ==> 0 <= #[trigger] s[j].start <= s[j].end <= content.len(),
        0 <= k < s.len(),
        cursor(s, k) <= p < s[k].start,
    ensures
        p + prefix_growth(s, k) < emitted(content, s, k + 1).len(),
        emitted(content, s, k + 1)[p + prefix_growth(s, k)] == content[p],
{
    lemma_emitted_len(content, s, k);
    if k > 0 {
        assert(s[k - 1].end <= s[k].start);
    }
    let e0 = emitted(content, s, k);
    let gap = content.subrange(cursor(s, k), s[k].start);
    assert(emitted(content, s, k + 1) == e0 + gap + s[k].text);
    assert((e0 + gap + s[k].text)[p + prefix_growth(s, k)] == gap[p - cursor(s, k)]);
}

proof fn lemma_emitted_prefix(content: Seq<u8>, s: Seq<Edit>, k: int, m: int, i: int)
    requires
        0 <= k <= m,
        0 <= i < emitted(content, s, k).len(),
    ensures
        i < emitted(content, s, m).len(),
        emitted(content, s, m)[i] == emitted(content, s, k)[i],
    decreases m,
{
    if m > k {
        lemma_emitted_prefix(content, s, k, m - 1, i);
    }
}

proof fn lemma_sorted_facts(content: Seq<u8>, cs: Seq<Edit>, p: int)
    requires
        valid(content.len() as int, cs),
        !covered(cs, p),
    ensures
        chained(sorted(cs)),
        shift_before(sorted(cs), p) == shift_before(cs, p),
        forall|j: int| 0 <= j < sorted(cs).len() ==> 0 <= #[trigger] sorted(cs)[j].start <= sorted(cs)[j].end <= content.len(),
        forall|j: int| 0 <= j < sorted(cs).len() ==> !(#[trigger] sorted(cs)[j].start <= p && p < sorted(cs)[j].end),
{
    let s = sorted(cs);
    lemma_sorted(cs);
    lemma_shift_sorted(cs, p);
    assert forall|j: int| 0 <= j < s.len() implies 0 <= #[trigger] s[j].start <= s[j].end <= content.len() by {
        assert(s.contains(s[j]));
        assert(cs.contains(s[j]));
    }
    assert forall|j: int| 0 <= j < s.len() implies !(#[trigger] s[j].start <= p && p < s[j].end) by {
        assert(s.contains(s[j]));
        assert(cs.contains(s[j]));
        let i = choose|i: int| 0 <= i < cs.len() && cs[i] == s[j];
        assert(!(cs[i].start <= p < cs[i].end));
    }
}

proof fn lemma_emitted_grows(content: Seq<u8>, s: Seq<Edit>, k: int, m: int)
    requires
        0 <= k <= m,
    ensures
        emitted(content, s, k).len() <= emitted(content, s, m).len(),
    decreases m,
{
    if m > k {
        lemma_emitted_grows(content, s, k, m - 1);
    }
}

/// Bytes that no change replaces come out in the order they had.
pub proof fn lemma_outside_order(content: Seq<u8>, cs: Seq<Edit>, p: int, q: int)
    requires
        valid(content.len() as int, cs),
        0 <= p < q < content.len(),
        !covered(cs, p),
        !covered(cs, q),
    ensures
        p + shift_before(cs, p) < q + shift_before(cs, q),
{
    let s = sorted(cs);
    let n = s.len() as int;
    lemma_sorted_facts(content, cs, p);
    lemma_sorted_facts(content, cs, q);
    let kp = lemma_split_point(s, p);
    let kq = lemma_split_point(s, q);
    lemma_shift_prefix(s, p, kp, n);
    lemma_shift_prefix(s, q, kq, n);
    assert(s.take(n) =~= s);
    if kp > kq {
        assert(s[kq].end > q);
        assert(s[kq].end <= p);
    }
    if kp < kq {
        assert(s[kp].end <= q);
        assert(s[kp].end > p);
        assert(s[kp].start > p);
        if kp > 0 {
            assert(s[kp - 1].end <= p);
        }
        lemma_gap_byte(content, s, kp, p);
        lemma_emitted_grows(content, s, kp + 1, kq);
        lemma_emitted_len(content, s, kq);
        assert(s[kq - 1].end <= q);
    }
}

/// A byte that no change replaces comes out unchanged, moved by the growth
/// of the changes that end at or before it.
pub proof fn lemma_outside_kept(content: Seq<u8>, cs: Seq<Edit>, p: int)
    requires
        valid(content.len() as int, cs),
        0 <= p < content.len(),
        !covered(cs, p),
    ensures
        0 <= p + shift_before(cs, p) < patched(content, cs).len(),
        patched(content, cs)[p + shift_before(cs, p)] == content[p],
{
    let s = sorted(cs);
    lemma_sorted_facts(content, cs, p);
    let n = s.len() as int;
    let k = lemma_split_point(s, p);
    lemma_shift_prefix(s, p, k, n);
    assert(s.take(n) =~= s);
    lemma_emitted_len(content, s, k);
    if k > 0 {
        assert(s[k - 1].end <= p);
    }
    let idx = p + prefix_growth(s, k);
    if k < n {
        assert(s[k].end > p);
        assert(s[k].start > p);
        lemma_gap_byte(content, s, k, p);
        lemma_emitted_prefix(content, s, k + 1, n, idx);
    } else {
        lemma_emitted_len(content, s, n);
        let e = emitted(content, s, n);
        let tail = content.subrange(cursor(s, n), content.len() as int);
        assert((e + tail)[idx] == tail[p - cursor(s, n)]);
    }
}

/// The patched content is as long as the content it came from, grown by every change:
/// minus the bytes each range held, plus the bytes of each replacement.
pub proof fn lemma_patched_len(content: Seq<u8>, cs: Seq<Edit>)
    requires
        valid(content.len() as int, cs),
    ensures
        patched(content, cs).len() == content.len() + shift_before(cs, content.len() as int),
{
    let len = content.len() as int;
    assert(!covered(cs, len)) by {
        assert forall|i: int| 0 <= i < cs.len() implies !(#[trigger] cs[i].start <= len && len < cs[i].end) by {
            assert(0 <= cs[i].start <= cs[i].end <= len);
        }
    }
    let s = sorted(cs);
    let n = s.len() as int;
    lemma_sorted_facts(content, cs, len);
    let k = lemma_split_point(s, len);
    if k < n {
        assert(0 <= s[k].start <= s[k].end <= len);
    }
    lemma_shift_prefix(s, len, k, n);
    assert(s.take(n) =~= s);
    lemma_emitted_len(content, s, n);
    if n > 0 {
        assert(0 <= s[n - 1].start <= s[n - 1].end <= len);
    }
}

} // verus!
