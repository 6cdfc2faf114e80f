//! Destination paths: relativisation of a source path and joining it under a root.
//!
//! Paths are byte strings with `/` as the separator, as on Unix.
use vstd::prelude::*;

verus! {

pub open spec fn is_sep(b: u8) -> bool {
    b == 0x2fu8
}

/// The segments of `p` between separators, in order; `p` with `k` separators
/// has `k + 1` segments, some of which may be empty.
pub open spec fn segments(p: Seq<u8>) -> Seq<Seq<u8>>
    decreases p.len(),
{
    if p.len() == 0 {
        seq![Seq::<u8>::empty()]
    } else {
        let rest = segments(p.drop_last());
        if is_sep(p.last()) {
            rest.push(Seq::<u8>::empty())
        } else {
            rest.update(rest.len() - 1, rest.last().push(p.last()))
        }
    }
}

/// A segment that names something: neither empty (a root or a doubled
/// separator) nor the current directory `.`.
pub open spec fn is_named(s: Seq<u8>) -> bool {
    s.len() > 0 && !(s.len() == 1 && s[0] == 0x2eu8)
}

/// The named segments of `ss`, in order.
pub open spec fn named(ss: Seq<Seq<u8>>) -> Seq<Seq<u8>>
    decreases ss.len(),
{
    if ss.len() == 0 {
        Seq::empty()
    } else if is_named(ss.last()) {
        named(ss.drop_last()).push(ss.last())
    } else {
        named(ss.drop_last())
    }
}

/// The segments `ss` joined by single separators.
pub open spec fn join_segments(ss: Seq<Seq<u8>>) -> Seq<u8>
    decreases ss.len(),
{
    if ss.len() == 0 {
        Seq::empty()
    } else if ss.len() == 1 {
        ss[0]
    } else {
        join_segments(ss.drop_last()) + seq![0x2fu8] + ss.last()
    }
}

/// `p` as a relative path: root and current-directory components removed,
/// parent-directory and ordinary components kept in order.
pub open spec fn relative(p: Seq<u8>) -> Seq<u8> {
    join_segments(named(segments(p)))
}

/// `rel` placed under the directory `dst`, with one separator between them.
pub open spec fn joined(dst: Seq<u8>, rel: Seq<u8>) -> Seq<u8> {
    if dst.len() == 0 {
        rel
    } else if is_sep(dst.last()) {
        dst + rel
    } else {
        dst + seq![0x2fu8] + rel
    }
}

/// Where the source `src` lands under the destination root `dst`.
pub open spec fn appended(dst: Seq<u8>, src: Seq<u8>) -> Seq<u8> {
    joined(dst, relative(src))
}

pub open spec fn has_no_sep(s: Seq<u8>) -> bool {
    forall|i: int| 0 <= i < s.len() ==> !is_sep(#[trigger] s[i])
}

proof fn lemma_segments_nonempty(p: Seq<u8>)
    ensures
        segments(p).len() >= 1,
    decreases p.len(),
{
    if p.len() > 0 {
        lemma_segments_nonempty(p.drop_last());
    }
}

proof fn lemma_segments_have_no_sep(p: Seq<u8>)
    ensures
        forall|i: int| 0 <= i < segments(p).len() ==> has_no_sep(#[trigger] segments(p)[i]),
    decreases p.len(),
{
    if p.len() > 0 {
        lemma_segments_nonempty(p.drop_last());
        lemma_segments_have_no_sep(p.drop_last());
        let rest = segments(p.drop_last());
        if !is_sep(p.last()) {
            let l = rest.last().push(p.last());
            assert(has_no_sep(rest[rest.len() - 1]));
            assert forall|j: int| 0 <= j < l.len() implies !is_sep(#[trigger] l[j]) by {
                if j < l.len() - 1 {
                    assert(l[j] == rest.last()[j]);
                }
            }
        }
    }
}

proof fn lemma_named_all_named(ss: Seq<Seq<u8>>)
    ensures
        forall|i: int| 0 <= i < named(ss).len() ==> is_named(#[trigger] named(ss)[i]),
        (forall|i: int| 0 <= i < ss.len() ==> has_no_sep(#[trigger] ss[i])) ==> (forall|i: int|
            0 <= i < named(ss).len() ==> has_no_sep(#[trigger] named(ss)[i])),
    decreases ss.len(),
{
    if ss.len() > 0 {
        let init = ss.drop_last();
        lemma_named_all_named(init);
        let prev = named(init);
        if is_named(ss.last()) {
            assert(named(ss) == prev.push(ss.last()));
            assert forall|i: int| 0 <= i < named(ss).len() implies is_named(#[trigger] named(ss)[i]) by {
                if i < prev.len() {
                    assert(named(ss)[i] == prev[i]);
                }
            }
        } else {
            assert(named(ss) == prev);
        }
        if forall|i: int| 0 <= i < ss.len() ==> has_no_sep(#[trigger] ss[i]) {
            assert forall|i: int| 0 <= i < init.len() implies has_no_sep(#[trigger] init[i]) by {
                assert(init[i] == ss[i]);
            }
            assert(has_no_sep(ss[ss.len() - 1]));
            if is_named(ss.last()) {
                assert forall|i: int| 0 <= i < named(ss).len() implies has_no_sep(#[trigger] named(ss)[i]) by {
                    if i < prev.len() {
                        assert(named(ss)[i] == prev[i]);
                    }
                }
            }
        }
    }
}

/// A join of named segments is empty exactly when there are none.
proof fn lemma_join_empty(ss: Seq<Seq<u8>>)
    requires
        forall|i: int| 0 <= i < ss.len() ==> is_named(#[trigger] ss[i]),
    ensures
        (join_segments(ss).len() == 0) == (ss.len() == 0),
{
    if ss.len() == 1 {
        assert(is_named(ss[0]));
    }
}

proof fn lemma_named_of_named(ss: Seq<Seq<u8>>)
    requires
        forall|i: int| 0 <= i < ss.len() ==> is_named(#[trigger] ss[i]),
    ensures
        named(ss) == ss,
    decreases ss.len(),
{
    if ss.len() > 0 {
        assert forall|i: int| 0 <= i < ss.drop_last().len() implies is_named(
            #[trigger] ss.drop_last()[i],
        ) by {
            assert(ss.drop_last()[i] == ss[i]);
        }
        lemma_named_of_named(ss.drop_last());
        assert(is_named(ss[ss.len() - 1]));
        assert(ss.drop_last().push(ss.last()) =~= ss);
    }
}

/// Appending separator-free bytes only extends the last segment.
proof fn lemma_segments_extend(a: Seq<u8>, b: Seq<u8>)
    requires
        has_no_sep(b),
    ensures
        segments(a + b) == segments(a).update(
            segments(a).len() - 1,
            segments(a).last() + b,
        ),
    decreases b.len(),
{
    lemma_segments_nonempty(a);
    if b.len() == 0 {
        assert(a + b =~= a);
        assert(segments(a).last() + b =~= segments(a).last());
        assert(segments(a).update(segments(a).len() - 1, segments(a).last()) =~= segments(a));
    } else {
        let b0 = b.drop_last();
        assert forall|i: int| 0 <= i < b0.len() implies !is_sep(#[trigger] b0[i]) by {
            assert(b0[i] == b[i]);
        }
        lemma_segments_extend(a, b0);
        assert((a + b).drop_last() =~= a + b0);
        assert((a + b).last() == b.last());
        assert(!is_sep(b[b.len() - 1]));
        assert((segments(a).last() + b0).push(b.last()) =~= segments(a).last() + b);
        assert(segments(a + b) =~= segments(a).update(
            segments(a).len() - 1,
            segments(a).last() + b,
        ));
    }
}

/// Splitting a join of separator-free segments gives the segments back.
proof fn lemma_segments_of_join(ss: Seq<Seq<u8>>)
    requires
        ss.len() > 0,
        forall|i: int| 0 <= i < ss.len() ==> has_no_sep(#[trigger] ss[i]),
    ensures
        segments(join_segments(ss)) == ss,
    decreases ss.len(),
{
    if ss.len() == 1 {
        let e = Seq::<u8>::empty();
        assert(has_no_sep(ss[0]));
        lemma_segments_extend(e, ss[0]);
        assert(e + ss[0] =~= ss[0]);
        assert(segments(e) == seq![e]);
        assert(e + ss[0] =~= ss[0]);
        assert(seq![e].update(0, e + ss[0]) =~= ss);
    } else {
        let init = ss.drop_last();
        assert forall|i: int| 0 <= i < init.len() implies has_no_sep(#[trigger] init[i]) by {
            assert(init[i] == ss[i]);
        }
        lemma_segments_of_join(init);
        let a = join_segments(init) + seq![0x2fu8];
        assert(a.drop_last() =~= join_segments(init));
        assert(segments(a) == init.push(Seq::<u8>::empty()));
        assert(has_no_sep(ss[ss.len() - 1]));
        lemma_segments_extend(a, ss.last());
        assert(Seq::<u8>::empty() + ss.last() =~= ss.last());
        assert(init.push(Seq::<u8>::empty()).update(init.len() as int, ss.last()) =~= ss);
    }
}

/// The components of `p` as the dispatch compares them: a root marker `/` for
/// an absolute path, then its named segments.
pub open spec fn components_of(p: Seq<u8>) -> Seq<Seq<u8>> {
    if p.len() > 0 && is_sep(p[0]) {
        seq![seq![0x2fu8]] + named(segments(p))
    } else {
        named(segments(p))
    }
}

/// The segments of `p[start..i]` collected so far, pushed if named.
fn push_if_named(out: &mut Vec<Vec<u8>>, p: &[u8], start: usize, end: usize)
    requires
        start <= end <= p@.len(),
    ensures
        final(out)@.map_values(|v: Vec<u8>| v@) == if is_named(p@.subrange(start as int, end as int)) {
            old(out)@.map_values(|v: Vec<u8>| v@).push(p@.subrange(start as int, end as int))
        } else {
            old(out)@.map_values(|v: Vec<u8>| v@)
        },
{
    let seg_len = end - start;
    let is_dot = seg_len == 1 && p[start] == 0x2eu8;
    proof {
        if seg_len == 1 {
            assert(p@.subrange(start as int, end as int)[0] == p@[start as int]);
        }
    }
    if seg_len > 0 && !is_dot {
        let mut seg: Vec<u8> = Vec::new();
        let mut j: usize = start;
        while j < end
            invariant
                start <= j <= end <= p@.len(),
                seg@ == p@.subrange(start as int, j as int),
            decreases end - j,
        {
            seg.push(p[j]);
            proof {
                assert(p@.subrange(start as int, j + 1) =~= p@.subrange(start as int, j as int).push(
                    p@[j as int],
                ));
            }
            j = j + 1;
        }
        let ghost before = out@.map_values(|v: Vec<u8>| v@);
        out.push(seg);
        proof {
            assert(out@.map_values(|v: Vec<u8>| v@) =~= before.push(p@.subrange(start as int, end as int)));
        }
    }
}

/// The named segments of `p`, in order.
pub fn named_segments(p: &[u8]) -> (r: Vec<Vec<u8>>)
    ensures
        r@.map_values(|v: Vec<u8>| v@) == named(segments(p@)),
{
    let mut out: Vec<Vec<u8>> = Vec::new();
    let mut start: usize = 0;
    let mut i: usize = 0;
    let n = p.len();
    proof {
        assert(p@.subrange(0, 0) =~= Seq::<u8>::empty());
        assert(out@.map_values(|v: Vec<u8>| v@) =~= Seq::<Seq<u8>>::empty());
    }
    while i < n
        invariant
            n == p@.len(),
            start <= i <= n,
            segments(p@.subrange(0, i as int)).last() == p@.subrange(start as int, i as int),
            out@.map_values(|v: Vec<u8>| v@) == named(segments(p@.subrange(0, i as int)).drop_last()),
        decreases n - i,
    {
        let ghost before = p@.subrange(0, i as int);
        let ghost after = p@.subrange(0, i + 1);
        proof {
            lemma_segments_nonempty(before);
            assert(after.drop_last() =~= before);
        }
        if p[i] == 0x2fu8 {
            proof {
                let segs = segments(before);
                assert(segments(after) == segs.push(Seq::<u8>::empty()));
                assert(segments(after).drop_last() =~= segs);
                assert(segs.drop_last().push(segs.last()) =~= segs);
            }
            push_if_named(&mut out, p, start, i);
            start = i + 1;
        } else {
            proof {
                let segs = segments(before);
                assert(segments(after) == segs.update(segs.len() - 1, segs.last().push(p@[i as int])));
                assert(segments(after).drop_last() =~= segs.drop_last());
                assert(p@.subrange(start as int, i + 1) =~= p@.subrange(start as int, i as int).push(p@[i as int]));
            }
        }
        i = i + 1;
    }
    proof {
        assert(p@.subrange(0, n as int) =~= p@);
        lemma_segments_nonempty(p@);
        let segs = segments(p@);
        assert(segs.drop_last().push(segs.last()) =~= segs);
    }
    push_if_named(&mut out, p, start, n);
    out
}

/// The components of `p` (see [`components_of`]).
pub fn components(p: &[u8]) -> (r: Vec<Vec<u8>>)
    ensures
        r@.map_values(|v: Vec<u8>| v@) == components_of(p@),
{
    let named = named_segments(p);
    if p.len() > 0 && p[0] == 0x2fu8 {
        let mut out: Vec<Vec<u8>> = Vec::new();
        let mut root: Vec<u8> = Vec::new();
        root.push(0x2fu8);
        out.push(root);
        let ghost first = out@.map_values(|v: Vec<u8>| v@);
        proof {
            assert(first =~= seq![seq![0x2fu8]]);
        }
        let mut k: usize = 0;
        while k < named.len()
            invariant
                k <= named@.len(),
                out@.map_values(|v: Vec<u8>| v@) == seq![seq![0x2fu8]] + named@.map_values(
                    |v: Vec<u8>| v@,
                ).subrange(0, k as int),
            decreases named.len() - k,
        {
            let c = crate::backup::copy_bytes(&named[k]);
            let ghost before = out@.map_values(|v: Vec<u8>| v@);
            out.push(c);
            proof {
                let nv = named@.map_values(|v: Vec<u8>| v@);
                assert(nv[k as int] == named@[k as int]@);
                assert(nv.subrange(0, k + 1) =~= nv.subrange(0, k as int).push(nv[k as int]));
                assert(out@.map_values(|v: Vec<u8>| v@) =~= before.push(c@));
                assert(out@.map_values(|v: Vec<u8>| v@) =~= seq![seq![0x2fu8]] + nv.subrange(0, k + 1));
            }
            k = k + 1;
        }
        proof {
            assert(named@.map_values(|v: Vec<u8>| v@).subrange(0, named@.len() as int) =~= named@.map_values(|v: Vec<u8>| v@));
        }
        out
    } else {
        named
    }
}

/// Relativisation is idempotent.
pub proof fn lemma_relative_idempotent(p: Seq<u8>)
    ensures
        relative(relative(p)) == relative(p),
{
    let ks = named(segments(p));
    lemma_segments_have_no_sep(p);
    lemma_named_all_named(segments(p));
    if ks.len() == 0 {
        assert(relative(p) == Seq::<u8>::empty());
        assert(segments(Seq::<u8>::empty()) == seq![Seq::<u8>::empty()]);
        assert(seq![Seq::<u8>::empty()].drop_last() =~= Seq::<Seq<u8>>::empty());
        assert(named(seq![Seq::<u8>::empty()]) == named(Seq::<Seq<u8>>::empty()));
    } else {
        lemma_segments_of_join(ks);
        lemma_named_of_named(ks);
    }
}

/// `path` as a relative path (see [`relative`]).
pub fn as_relative(path: &[u8]) -> (r: Vec<u8>)
    ensures
        r@ == relative(path@),
{
    let mut out: Vec<u8> = Vec::new();
    let mut start: usize = 0;
    let mut i: usize = 0;
    let n = path.len();
    proof {
        assert(path@.subrange(0, 0) =~= Seq::<u8>::empty());
    }
    while i < n
        invariant
            n == path@.len(),
            start <= i <= n,
            segments(path@.subrange(0, i as int)).last() == path@.subrange(start as int, i as int),
            out@ == join_segments(named(segments(path@.subrange(0, i as int)).drop_last())),
        decreases n - i,
    {
        let ghost before = path@.subrange(0, i as int);
        let ghost after = path@.subrange(0, i + 1);
        proof {
            lemma_segments_nonempty(before);
            assert(after.drop_last() =~= before);
        }
        if path[i] == 0x2fu8 {
            let seg_len = i - start;
            let is_dot = seg_len == 1 && path[start] == 0x2eu8;
            proof {
                let segs = segments(before);
                assert(segments(after) == segs.push(Seq::<u8>::empty()));
                assert(segments(after).drop_last() =~= segs);
                assert(segs.drop_last().push(segs.last()) =~= segs);
                if seg_len == 1 {
                    assert(path@.subrange(start as int, i as int)[0] == path@[start as int]);
                }
            }
            proof {
                let segs = segments(before);
                lemma_named_all_named(segs.drop_last());
                lemma_join_empty(named(segs.drop_last()));
                if !(seg_len > 0 && !is_dot) {
                    assert(!is_named(segs.last()));
                    assert(named(segs) == named(segs.drop_last()));
                }
            }
            if seg_len > 0 && !is_dot {
                if out.len() > 0 {
                    out.push(0x2fu8);
                }
                let mut j: usize = start;
                let ghost base = out@;
                while j < i
                    invariant
                        start <= j <= i < n,
                        n == path@.len(),
                        out@ == base + path@.subrange(start as int, j as int),
                    decreases i - j,
                {
                    out.push(path[j]);
                    proof {
                        assert(path@.subrange(start as int, j + 1) =~= path@.subrange(
                            start as int,
                            j as int,
                        ).push(path@[j as int]));
                    }
                    j = j + 1;
                }
                proof {
                    let segs = segments(before);
                    let prev = named(segs.drop_last());
                    assert(named(segs) == prev.push(segs.last()));
                    if prev.len() > 0 {
                        assert(prev.push(segs.last()).drop_last() =~= prev);
                    } else {
                        assert(base.len() == 0);
                        assert(out@ =~= segs.last());
                    }
                }
            }
            start = i + 1;
        } else {
            proof {
                let segs = segments(before);
                assert(segments(after) == segs.update(segs.len() - 1, segs.last().push(path@[i as int])));
                assert(segments(after).drop_last() =~= segs.drop_last());
                assert(path@.subrange(start as int, i + 1) =~= path@.subrange(start as int, i as int).push(path@[i as int]));
            }
        }
        i = i + 1;
    }
    proof {
        assert(path@.subrange(0, n as int) =~= path@);
    }
    let seg_len = n - start;
    let is_dot = seg_len == 1 && path[start] == 0x2eu8;
    proof {
        lemma_segments_nonempty(path@);
        let segs = segments(path@);
        assert(segs.drop_last().push(segs.last()) =~= segs);
        if seg_len == 1 {
            assert(path@.subrange(start as int, n as int)[0] == path@[start as int]);
        }
    }
    proof {
        let segs = segments(path@);
        lemma_named_all_named(segs.drop_last());
        lemma_join_empty(named(segs.drop_last()));
        if !(seg_len > 0 && !is_dot) {
            assert(!is_named(segs.last()));
            assert(named(segs) == named(segs.drop_last()));
        }
    }
    if seg_len > 0 && !is_dot {
        if out.len() > 0 {
            out.push(0x2fu8);
        }
        let mut j: usize = start;
        let ghost base = out@;
        while j < n
            invariant
                start <= j <= n,
                n == path@.len(),
                out@ == base + path@.subrange(start as int, j as int),
            decreases n - j,
        {
            out.push(path[j]);
            proof {
                assert(path@.subrange(start as int, j + 1) =~= path@.subrange(
                    start as int,
                    j as int,
                ).push(path@[j as int]));
            }
            j = j + 1;
        }
        proof {
            let segs = segments(path@);
            let prev = named(segs.drop_last());
            assert(named(segs) == prev.push(segs.last()));
            if prev.len() > 0 {
                assert(prev.push(segs.last()).drop_last() =~= prev);
            } else {
                assert(out@ =~= segs.last());
            }
        }
    }
    out
}

/// `src` relativised and placed under `dst`.
pub fn append_path(dst: &[u8], src: &[u8]) -> (r: Vec<u8>)
    ensures
        r@ == appended(dst@, src@),
{
    let rel = as_relative(src);
    join_path(dst, &rel)
}

/// `rel` placed under the directory `dst`.
pub fn join_path(dst: &[u8], rel: &[u8]) -> (r: Vec<u8>)
    ensures
        r@ == joined(dst@, rel@),
{
    let mut out: Vec<u8> = Vec::new();
    let mut i: usize = 0;
    while i < dst.len()
        invariant
            i <= dst@.len(),
            out@ == dst@.subrange(0, i as int),
        decreases dst.len() - i,
    {
        out.push(dst[i]);
        proof {
            assert(dst@.subrange(0, i + 1) =~= dst@.subrange(0, i as int).push(dst@[i as int]));
        }
        i = i + 1;
    }
    proof {
        assert(dst@.subrange(0, dst@.len() as int) =~= dst@);
    }
    if dst.len() > 0 && dst[dst.len() - 1] != 0x2fu8 {
        out.push(0x2fu8);
    }
    let ghost base = out@;
    let mut k: usize = 0;
    while k < rel.len()
        invariant
            k <= rel@.len(),
            out@ == base + rel@.subrange(0, k as int),
        decreases rel.len() - k,
    {
        out.push(rel[k]);
        proof {
            assert(rel@.subrange(0, k + 1) =~= rel@.subrange(0, k as int).push(rel@[k as int]));
        }
        k = k + 1;
    }
    proof {
        assert(rel@.subrange(0, rel@.len() as int) =~= rel@);
        assert(out@ =~= joined(dst@, rel@));
    }
    out
}

/// The segments `segs` joined by single separators.
pub fn join_all(segs: &Vec<Vec<u8>>, count: usize) -> (r: Vec<u8>)
    requires
        count <= segs@.len(),
    ensures
        r@ == join_segments(segs@.map_values(|v: Vec<u8>| v@).subrange(0, count as int)),
{
    let ghost sv = segs@.map_values(|v: Vec<u8>| v@);
    let mut out: Vec<u8> = Vec::new();
    let mut k: usize = 0;
    proof {
        assert(sv.subrange(0, 0) =~= Seq::<Seq<u8>>::empty());
    }
    while k < count
        invariant
            k <= count <= segs@.len(),
            sv == segs@.map_values(|v: Vec<u8>| v@),
            out@ == join_segments(sv.subrange(0, k as int)),
        decreases count - k,
    {
        let ghost before = out@;
        if k > 0 {
            out.push(0x2fu8);
        }
        let seg = &segs[k];
        let ghost mid = out@;
        let mut j: usize = 0;
        while j < seg.len()
            invariant
                j <= seg@.len(),
                out@ == mid + seg@.subrange(0, j as int),
            decreases seg.len() - j,
        {
            out.push(seg[j]);
            proof {
                assert(seg@.subrange(0, j + 1) =~= seg@.subrange(0, j as int).push(seg@[j as int]));
            }
            j = j + 1;
        }
        proof {
            assert(seg@.subrange(0, seg@.len() as int) =~= seg@);
            assert(sv[k as int] == seg@);
            let next = sv.subrange(0, k + 1);
            assert(next.drop_last() =~= sv.subrange(0, k as int));
            assert(next.last() == seg@);
            if k == 0 {
                assert(out@ =~= seg@);
            } else {
                assert(out@ =~= before + seq![0x2fu8] + seg@);
            }
        }
        k = k + 1;
    }
    out
}

} // verus!
