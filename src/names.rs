//! Rendering of an imported name list as replacement text, and splitting of
//! the comma-joined list that analysis records carry.
use vstd::prelude::*;

verus! {

/// The text of each string of `v`.
pub open spec fn texts(v: Seq<String>) -> Seq<Seq<char>> {
    v.map_values(|s: String| s@)
}

/// `s` cut at each comma; a text without commas is one piece.
pub open spec fn split_commas(s: Seq<char>) -> Seq<Seq<char>>
    decreases s.len(),
{
    if s.len() == 0 {
        seq![Seq::empty()]
    } else {
        let p = split_commas(s.drop_last());
        if s.last() == ',' {
            p.push(Seq::empty())
        } else {
            p.update(p.len() - 1, p.last().push(s.last()))
        }
    }
}

proof fn lemma_split_nonempty(s: Seq<char>)
    ensures
        split_commas(s).len() >= 1,
    decreases s.len(),
{
    if s.len() > 0 {
        lemma_split_nonempty(s.drop_last());
    }
}

/// Cuts a comma-joined name list into its names.
pub fn split_names(s: &str) -> (r: Vec<String>)
    ensures
        texts(r@) == split_commas(s@),
{
    let n = s.unicode_len();
    let mut done: Vec<String> = Vec::new();
    let mut from: usize = 0;
    let mut i: usize = 0;
    assert(s@.take(0) =~= Seq::<char>::empty());
    assert(texts(done@).push(s@.subrange(0, 0)) =~= seq![Seq::<char>::empty()]);
    while i < n
        invariant
            n == s@.len(),
            from <= i <= n,
            split_commas(s@.take(i as int)) == texts(done@).push(s@.subrange(from as int, i as int)),
        decreases n - i,
    {
        let c = s.get_char(i);
        proof {
            let t = s@.take(i + 1);
            assert(t.drop_last() =~= s@.take(i as int));
            assert(t.last() == c);
            lemma_split_nonempty(s@.take(i as int));
        }
        if c == ',' {
            let piece = s.substring_char(from, i).to_owned();
            let ghost before = done@;
            let ghost f0 = from as int;
            done.push(piece);
            i = i + 1;
            from = i;
            assert(texts(done@) =~= texts(before).push(s@.subrange(f0, i - 1)));
            assert(s@.subrange(from as int, i as int) =~= Seq::<char>::empty());
            assert(split_commas(s@.take(i as int)) =~= texts(done@).push(s@.subrange(from as int, i as int)));
        } else {
            i = i + 1;
            assert(s@.subrange(from as int, i as int) =~= s@.subrange(from as int, i - 1).push(c));
            assert(split_commas(s@.take(i as int)) =~= texts(done@).push(s@.subrange(from as int, i as int)));
        }
    }
    let last = s.substring_char(from, n).to_owned();
    done.push(last);
    assert(s@.take(n as int) =~= s@);
    assert(texts(done@) =~= split_commas(s@));
    done
}

/// `names` joined with `", "`, in the order given.
pub open spec fn joined(names: Seq<Seq<char>>) -> Seq<char>
    decreases names.len(),
{
    if names.len() == 0 {
        Seq::empty()
    } else if names.len() == 1 {
        names[0]
    } else {
        joined(names.drop_last()) + seq![',', ' '] + names.last()
    }
}

/// The text that replaces a wildcard: a single name as it is, several names
/// joined and wrapped in braces.
pub open spec fn formatted(names: Seq<Seq<char>>) -> Seq<char> {
    if names.len() == 1 {
        names[0]
    } else {
        seq!['{'] + joined(names) + seq!['}']
    }
}

/// Renders `names` as the text of an explicit import.
pub fn format_names(names: &Vec<String>) -> (r: String)
    requires
        names@.len() >= 1,
    ensures
        r@ == formatted(texts(names@)),
{
    if names.len() == 1 {
        return names[0].clone();
    }
    let mut r = String::new();
    proof {
        reveal_strlit("{");
        reveal_strlit(", ");
        reveal_strlit("}");
    }
    r.append("{");
    r.append(names[0].as_str());
    let mut i: usize = 1;
    while i < names.len()
        invariant
            1 <= i <= names.len(),
            r@ == seq!['{'] + joined(texts(names@).take(i as int)),
        decreases names.len() - i,
    {
        let ghost before = r@;
        r.append(", ");
        r.append(names[i].as_str());
        proof {
            let t = texts(names@).take(i + 1);
            assert(t.drop_last() =~= texts(names@).take(i as int));
            assert(t.last() == names@[i as int]@);
            reveal_strlit(", ");
            assert(", "@ =~= seq![',', ' ']);
            assert(r@ =~= seq!['{'] + (joined(t.drop_last()) + seq![',', ' '] + t.last()));
        }
        i = i + 1;
    }
    assert(texts(names@).take(i as int) =~= texts(names@));
    proof {
        reveal_strlit("}");
    }
    r.append("}");
    r
}

} // verus!
