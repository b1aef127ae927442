//! Resolution of a relative path against an absolute one, segment by segment.
use vstd::prelude::*;

verus! {

/// The segments that `s` holds once `cur` (the segment being read) is
/// closed: the pieces between `/` characters, with empty pieces dropped.
pub open spec fn segments_from(s: Seq<char>, cur: Seq<char>) -> Seq<Seq<char>>
    decreases s.len(),
{
    if s.len() == 0 {
        if cur.len() == 0 { seq![] } else { seq![cur] }
    } else if s[0] == '/' {
        (if cur.len() == 0 { seq![] } else { seq![cur] }) + segments_from(s.drop_first(), seq![])
    } else {
        segments_from(s.drop_first(), cur.push(s[0]))
    }
}

/// The non-empty pieces of `s` between `/` characters, in order.
pub open spec fn segments(s: Seq<char>) -> Seq<Seq<char>> {
    segments_from(s, seq![])
}

pub open spec fn is_parent_segment(seg: Seq<char>) -> bool {
    seg =~= seq!['.', '.']
}

/// One relative segment applied to the base segments: `..` drops the last
/// one (and leaves an empty list empty), any other segment is appended.
pub open spec fn step_segment(base: Seq<Seq<char>>, seg: Seq<char>) -> Seq<Seq<char>> {
    if is_parent_segment(seg) {
        if base.len() == 0 { base } else { base.drop_last() }
    } else {
        base.push(seg)
    }
}

/// The relative segments applied to the base segments, left to right.
pub open spec fn walk_segments(base: Seq<Seq<char>>, rel: Seq<Seq<char>>) -> Seq<Seq<char>>
    decreases rel.len(),
{
    if rel.len() == 0 {
        base
    } else {
        step_segment(walk_segments(base, rel.drop_last()), rel.last())
    }
}

/// The segments joined with `/` between them.
pub open spec fn join_segments(segs: Seq<Seq<char>>) -> Seq<char>
    decreases segs.len(),
{
    if segs.len() == 0 {
        seq![]
    } else if segs.len() == 1 {
        segs[0]
    } else {
        join_segments(segs.drop_last()) + seq!['/'] + segs.last()
    }
}

/// The path that `rel` leads to from `base`.
pub open spec fn resolved(base: Seq<char>, rel: Seq<char>) -> Seq<char> {
    if segments(rel).len() == 0 {
        base
    } else {
        join_segments(walk_segments(segments(base), segments(rel)))
    }
}

proof fn lemma_segments_step(s: Seq<char>, start: int, i: int)
    requires
        0 <= start <= i < s.len(),
    ensures
        segments_from(s.subrange(i, s.len() as int), s.subrange(start, i)) == (if s[i] == '/' {
            (if i == start { seq![] } else { seq![s.subrange(start, i)] }) + segments_from(
                s.subrange(i + 1, s.len() as int),
                s.subrange(i + 1, i + 1),
            )
        } else {
            segments_from(s.subrange(i + 1, s.len() as int), s.subrange(start, i + 1))
        }),
{
    let rest = s.subrange(i, s.len() as int);
    assert(rest.drop_first() =~= s.subrange(i + 1, s.len() as int));
    assert(s.subrange(start, i).push(s[i]) =~= s.subrange(start, i + 1));
    assert(s.subrange(i + 1, i + 1) =~= Seq::<char>::empty());
    assert(rest[0] == s[i]);
}

/// Splits `s` on `/`, dropping empty pieces.
pub fn split_segments(s: &str) -> (r: Vec<String>)
    ensures
        r@.map_values(|x: String| x@) == segments(s@),
{
    let n = s.unicode_len();
    let mut r: Vec<String> = Vec::new();
    let mut start: usize = 0;
    let mut i: usize = 0;
    proof {
        assert(s@.subrange(0, n as int) =~= s@);
        assert(s@.subrange(0, 0) =~= Seq::<char>::empty());
        assert(r@.map_values(|x: String| x@) =~= Seq::<Seq<char>>::empty());
        assert(segments(s@) =~= r@.map_values(|x: String| x@) + segments(s@));
    }
    while i < n
        invariant
            n == s@.len(),
            start <= i <= n,
            segments(s@) == r@.map_values(|x: String| x@) + segments_from(
                s@.subrange(i as int, n as int),
                s@.subrange(start as int, i as int),
            ),
        decreases n - i,
    {
        proof {
            lemma_segments_step(s@, start as int, i as int);
        }
        let c = s.get_char(i);
        if c == '/' {
            if i > start {
                let seg = s.substring_char(start, i).to_owned();
                let ghost prev = r@;
                r.push(seg);
                assert(r@.map_values(|x: String| x@) =~= prev.map_values(|x: String| x@) + seq![
                    seg@,
                ]);
            }
            start = i + 1;
        }
        i = i + 1;
    }
    proof {
        assert(s@.subrange(n as int, n as int) =~= Seq::<char>::empty());
    }
    if n > start {
        let seg = s.substring_char(start, n).to_owned();
        let ghost prev = r@;
        r.push(seg);
        assert(r@.map_values(|x: String| x@) =~= prev.map_values(|x: String| x@) + seq![seg@]);
    } else {
        assert(r@.map_values(|x: String| x@) =~= r@.map_values(|x: String| x@) + seq![]);
    }
    r
}

/// Whether a segment is `..`.
fn is_parent(seg: &String) -> (r: bool)
    ensures
        r == is_parent_segment(seg@),
{
    let s = seg.as_str();
    if s.unicode_len() != 2 {
        return false;
    }
    let a = s.get_char(0);
    let b = s.get_char(1);
    a == '.' && b == '.'
}

/// The segments joined with `/`.
pub fn join(segs: &Vec<String>) -> (r: String)
    ensures
        r@ == join_segments(segs@.map_values(|x: String| x@)),
{
    let mut r = String::new();
    let mut i: usize = 0;
    proof {
        reveal_strlit("/");
    }
    while i < segs.len()
        invariant
            i <= segs@.len(),
            "/"@ == seq!['/'],
            r@ == join_segments(segs@.map_values(|x: String| x@).take(i as int)),
        decreases segs.len() - i,
    {
        let ghost all = segs@.map_values(|x: String| x@);
        assert(all.take(i + 1).drop_last() =~= all.take(i as int));
        if i > 0 {
            r.append("/");
        } else {
            assert(r@ + segs[0 as int]@ =~= segs[0 as int]@);
        }
        r.append(segs[i].as_str());
        i = i + 1;
    }
    assert(segs@.map_values(|x: String| x@).take(segs.len() as int) =~= segs@.map_values(
        |x: String| x@,
    ));
    r
}

/// Resolves `rel` against `abs`: both are split on `/` with empty pieces
/// dropped; a relative path with no segments gives `abs` unchanged;
/// otherwise each relative segment `..` drops the last base segment (an
/// empty base stays empty) and any other is appended, and the segments are
/// joined with `/`.
pub fn resolve_path(abs: &str, rel: &str) -> (r: String)
    ensures
        r@ == resolved(abs@, rel@),
        segments(rel@).len() == 0 ==> r@ == abs@,
{
    let rel_segments = split_segments(rel);
    if rel_segments.len() == 0 {
        return abs.to_owned();
    }
    let mut base = split_segments(abs);
    let ghost base0 = base@.map_values(|x: String| x@);
    let ghost rels = rel_segments@.map_values(|x: String| x@);
    let mut i: usize = 0;
    while i < rel_segments.len()
        invariant
            i <= rel_segments@.len(),
            rels == rel_segments@.map_values(|x: String| x@),
            base@.map_values(|x: String| x@) == walk_segments(base0, rels.take(i as int)),
        decreases rel_segments.len() - i,
    {
        assert(rels.take(i + 1).drop_last() =~= rels.take(i as int));
        let ghost before = base@.map_values(|x: String| x@);
        if is_parent(&rel_segments[i]) {
            if base.len() > 0 {
                base.pop();
                assert(base@.map_values(|x: String| x@) =~= before.drop_last());
            }
        } else {
            base.push(rel_segments[i].clone());
            assert(base@.map_values(|x: String| x@) =~= before.push(rels[i as int]));
        }
        i = i + 1;
    }
    assert(rels.take(rels.len() as int) =~= rels);
    join(&base)
}

} // verus!
