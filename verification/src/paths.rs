use vstd::prelude::*;

use crate::util::{bytes_eq, find_byte, find_byte_from, lemma_find_byte, push_range, seq_views, subvec, B_DOT, B_SLASH};

verus! {

/// Joining a relative path under a base directory, the way the engine
/// resolves directive paths: an absolute path stands alone; otherwise the two
/// are joined with a single separator.
pub open spec fn join_under(base: Seq<u8>, rel: Seq<u8>) -> Seq<u8> {
    if rel.len() > 0 && rel[0] == B_SLASH {
        rel
    } else if base.len() == 0 {
        rel
    } else if base.last() == B_SLASH {
        base + rel
    } else {
        base + seq![B_SLASH] + rel
    }
}

pub fn join_path(base: &[u8], rel: &[u8]) -> (v: Vec<u8>)
    ensures
        v@ == join_under(base@, rel@),
{
    if rel.len() > 0 && rel[0] == B_SLASH {
        let v = subvec(rel, 0, rel.len());
        proof {
            assert(rel@.subrange(0, rel@.len() as int) =~= rel@);
        }
        v
    } else if base.len() == 0 {
        let v = subvec(rel, 0, rel.len());
        proof {
            assert(rel@.subrange(0, rel@.len() as int) =~= rel@);
        }
        v
    } else if base[base.len() - 1] == B_SLASH {
        let mut v = subvec(base, 0, base.len());
        push_range(&mut v, rel, 0, rel.len());
        proof {
            assert(base@.subrange(0, base@.len() as int) =~= base@);
            assert(rel@.subrange(0, rel@.len() as int) =~= rel@);
        }
        v
    } else {
        let mut v = subvec(base, 0, base.len());
        v.push(B_SLASH);
        push_range(&mut v, rel, 0, rel.len());
        proof {
            assert(base@.subrange(0, base@.len() as int) =~= base@);
            assert(rel@.subrange(0, rel@.len() as int) =~= rel@);
            assert(base@.push(B_SLASH) =~= base@ + seq![B_SLASH]);
        }
        v
    }
}

/// The path with its trailing separators removed (a lone leading separator
/// stays).
pub open spec fn strip_trail(p: Seq<u8>) -> Seq<u8>
    decreases p.len(),
{
    if p.len() > 1 && p.last() == B_SLASH {
        strip_trail(p.drop_last())
    } else {
        p
    }
}

/// Last position holding `b`, if any.
pub open spec fn rfind_byte(s: Seq<u8>, b: u8) -> Option<int>
    decreases s.len(),
{
    if s.len() == 0 {
        None
    } else if s.last() == b {
        Some(s.len() - 1)
    } else {
        rfind_byte(s.drop_last(), b)
    }
}

/// The directory that holds `p`: everything before the last separator.  It is
/// total: a root or relative single-component path degenerates to the root or
/// to the empty path.
pub open spec fn parent_of(p: Seq<u8>) -> Seq<u8> {
    let u = strip_trail(p);
    match rfind_byte(u, B_SLASH) {
        None => Seq::empty(),
        Some(k) => if k == 0 {
            seq![B_SLASH]
        } else {
            u.subrange(0, k)
        },
    }
}

proof fn lemma_rfind_byte(s: Seq<u8>, b: u8)
    ensures
        match rfind_byte(s, b) {
            Some(k) => 0 <= k < s.len() && s[k] == b,
            None => true,
        },
    decreases s.len(),
{
    if s.len() == 0 {
    } else if s.last() == b {
    } else {
        lemma_rfind_byte(s.drop_last(), b);
    }
}

pub fn parent_dir(p: &[u8]) -> (v: Vec<u8>)
    ensures
        v@ == parent_of(p@),
{
    let mut end: usize = p.len();
    proof {
        assert(p@.subrange(0, p@.len() as int) =~= p@);
    }
    while end > 1 && p[end - 1] == B_SLASH
        invariant
            end <= p@.len(),
            strip_trail(p@) == strip_trail(p@.subrange(0, end as int)),
        decreases end,
    {
        proof {
            let cur = p@.subrange(0, end as int);
            assert(cur.drop_last() =~= p@.subrange(0, end - 1));
        }
        end = end - 1;
    }
    proof {
        assert(strip_trail(p@.subrange(0, end as int)) == p@.subrange(0, end as int));
    }
    let ghost u = strip_trail(p@);
    proof {
        lemma_rfind_byte(u, B_SLASH);
    }
    let mut k: usize = end;
    while k > 0 && p[k - 1] != B_SLASH
        invariant
            k <= end <= p@.len(),
            u == p@.subrange(0, end as int),
            rfind_byte(u, B_SLASH) == rfind_byte(p@.subrange(0, k as int), B_SLASH),
        decreases k,
    {
        proof {
            let cur = p@.subrange(0, k as int);
            assert(cur.drop_last() =~= p@.subrange(0, k - 1));
        }
        k = k - 1;
    }
    if k == 0 {
        proof {
            assert(rfind_byte(p@.subrange(0, 0), B_SLASH) is None);
        }
        Vec::new()
    } else {
        proof {
            let cur = p@.subrange(0, k as int);
            assert(cur.last() == p@[k - 1]);
            assert(rfind_byte(cur, B_SLASH) == Some(k - 1));
        }
        if k == 1 {
            let mut v: Vec<u8> = Vec::new();
            v.push(B_SLASH);
            proof {
                assert(v@ =~= seq![B_SLASH]);
            }
            v
        } else {
            let v = subvec(p, 0, k - 1);
            proof {
                assert(p@.subrange(0, k - 1) =~= u.subrange(0, k - 1));
            }
            v
        }
    }
}

/// The directory that the content of an inserted file resolves its own
/// relative paths from: the parent of the directive path joined under the
/// base directory.
pub fn return_relative_path(base: &[u8], relative: &[u8]) -> (v: Vec<u8>)
    ensures
        v@ == parent_of(join_under(base@, relative@)),
{
    let joined = join_path(base, relative);
    parent_dir(joined.as_slice())
}

/// Whether a path component is kept: empty runs between separators and lone
/// `.` components say nothing about the location.
pub open spec fn keep_component(t: Seq<u8>) -> bool {
    t.len() > 0 && t != seq![B_DOT]
}

/// The meaningful components of the path, reading from position `i` on.
pub open spec fn components_from(p: Seq<u8>, i: int) -> Seq<Seq<u8>>
    decreases p.len() - i,
{
    if i < 0 || i >= p.len() {
        Seq::empty()
    } else {
        match find_byte(p, B_SLASH, i) {
            None => {
                let t = p.subrange(i, p.len() as int);
                if keep_component(t) {
                    seq![t]
                } else {
                    Seq::empty()
                }
            },
            Some(k) => {
                let t = p.subrange(i, k);
                let nxt = if i + 1 < k + 1 && k + 1 <= p.len() {
                    k + 1
                } else {
                    i + 1
                };
                if keep_component(t) {
                    seq![t] + components_from(p, nxt)
                } else {
                    components_from(p, nxt)
                }
            },
        }
    }
}

pub open spec fn is_abs(p: Seq<u8>) -> bool {
    p.len() > 0 && p[0] == B_SLASH
}

/// The components of a path, in order.
pub fn components(p: &[u8]) -> (v: Vec<Vec<u8>>)
    ensures
        seq_views(v@) == components_from(p@, 0),
{
    let mut v: Vec<Vec<u8>> = Vec::new();
    let mut i: usize = 0;
    while i < p.len()
        invariant
            i <= p@.len(),
            components_from(p@, 0) == seq_views(v@) + components_from(p@, i as int),
        decreases p.len() - i,
    {
        let k = find_byte_from(p, B_SLASH, i);
        proof {
            lemma_find_byte(p@, B_SLASH, i as int);
        }
        let seg_end: usize = match k {
            Some(k) => k,
            None => p.len(),
        };
        let keep: bool = seg_end - i > 0 && !(seg_end - i == 1 && p[i] == B_DOT);
        proof {
            let t = p@.subrange(i as int, seg_end as int);
            if seg_end - i == 1 && p@[i as int] == B_DOT {
                assert(t =~= seq![B_DOT]);
            }
            if seg_end > i && !(seg_end - i == 1 && p@[i as int] == B_DOT) {
                assert(t != seq![B_DOT]) by {
                    if t == seq![B_DOT] {
                        assert(t.len() == 1);
                        assert(t[0] == B_DOT);
                        assert(p@[i as int] == B_DOT);
                    }
                }
            }
        }
        if keep {
            let seg = subvec(p, i, seg_end);
            v.push(seg);
            proof {
                assert(seq_views(v@) =~= seq_views(v@.drop_last()).push(
                    p@.subrange(i as int, seg_end as int),
                ));
            }
        }
        match k {
            Some(kk) => {
                i = kk + 1;
            },
            None => {
                i = p.len();
                proof {
                    assert(components_from(p@, p@.len() as int) =~= Seq::<Seq<u8>>::empty());
                }
            },
        }
        proof {
            assert(components_from(p@, 0) =~= seq_views(v@) + components_from(p@, i as int));
        }
    }
    v
}

/// Joining components with single separators.
pub open spec fn join_components(cs: Seq<Seq<u8>>) -> Seq<u8>
    decreases cs.len(),
{
    if cs.len() == 0 {
        Seq::empty()
    } else if cs.len() == 1 {
        cs[0]
    } else {
        cs[0] + seq![B_SLASH] + join_components(cs.skip(1))
    }
}

proof fn lemma_join_components_push(cs: Seq<Seq<u8>>, e: Seq<u8>)
    ensures
        join_components(cs.push(e)) == if cs.len() == 0 {
            e
        } else {
            join_components(cs) + seq![B_SLASH] + e
        },
    decreases cs.len(),
{
    let whole = cs.push(e);
    if cs.len() == 0 {
        assert(whole.len() == 1);
        assert(join_components(whole) == whole[0]);
    } else {
        assert(whole.len() >= 2);
        assert(whole[0] == cs[0]);
        assert(whole.skip(1) =~= cs.skip(1).push(e));
        lemma_join_components_push(cs.skip(1), e);
        if cs.len() == 1 {
            assert(cs.skip(1).len() == 0);
            assert(join_components(whole) == cs[0] + seq![B_SLASH] + e);
            assert(join_components(cs) == cs[0]);
        } else {
            assert(join_components(whole) == cs[0] + seq![B_SLASH] + (join_components(cs.skip(1))
                + seq![B_SLASH] + e));
            assert(join_components(cs) + seq![B_SLASH] + e =~= cs[0] + seq![B_SLASH] + (
            join_components(cs.skip(1)) + seq![B_SLASH] + e));
        }
    }
}

/// The insertion folder: the inserted file's parent written relative to the
/// base directory, when the former lies under the latter.
pub open spec fn folder_of(base: Seq<u8>, parent: Seq<u8>) -> Option<Seq<u8>> {
    let cb = components_from(base, 0);
    let cp = components_from(parent, 0);
    if is_abs(base) == is_abs(parent) && cb.is_prefix_of(cp) {
        Some(join_components(cp.skip(cb.len() as int)))
    } else {
        None
    }
}

/// Compute the insertion folder, if the parent lies under the base.
pub fn insertion_folder(base: &[u8], parent: &[u8]) -> (r: Option<Vec<u8>>)
    ensures
        match r {
            Some(v) => folder_of(base@, parent@) == Some(v@),
            None => folder_of(base@, parent@) is None,
        },
{
    let abs_b = base.len() > 0 && base[0] == B_SLASH;
    let abs_p = parent.len() > 0 && parent[0] == B_SLASH;
    if abs_b != abs_p {
        return None;
    }
    let cb = components(base);
    let cp = components(parent);
    let ghost vb = seq_views(cb@);
    let ghost vp = seq_views(cp@);
    if cb.len() > cp.len() {
        proof {
            assert(vb.len() == cb@.len() && vp.len() == cp@.len());
            assert(!vb.is_prefix_of(vp));
        }
        return None;
    }
    let mut i: usize = 0;
    while i < cb.len()
        invariant
            i <= cb@.len() <= cp@.len(),
            vb == seq_views(cb@),
            vp == seq_views(cp@),
            vb == components_from(base@, 0),
            vp == components_from(parent@, 0),
            is_abs(base@) == is_abs(parent@),
            forall|t: int| 0 <= t < i ==> vb[t] == vp[t],
        decreases cb.len() - i,
    {
        if !bytes_eq(cb[i].as_slice(), cp[i].as_slice()) {
            proof {
                assert(vb[i as int] == cb@[i as int]@ && vp[i as int] == cp@[i as int]@);
                assert(vb[i as int] != vp[i as int]);
                if vb.is_prefix_of(vp) {
                    assert(vb[i as int] == vp.subrange(0, vb.len() as int)[i as int]);
                }
                assert(!vb.is_prefix_of(vp));
            }
            return None;
        }
        i = i + 1;
    }
    proof {
        assert(vb =~= vp.subrange(0, vb.len() as int));
        assert(vb.is_prefix_of(vp));
    }
    let mut out: Vec<u8> = Vec::new();
    let mut j: usize = cb.len();
    while j < cp.len()
        invariant
            cb@.len() <= j <= cp@.len(),
            vp == seq_views(cp@),
            vp == components_from(parent@, 0),
            vb == components_from(base@, 0),
            vb.len() == cb@.len(),
            is_abs(base@) == is_abs(parent@),
            vb.is_prefix_of(vp),
            out@ == join_components(vp.subrange(cb@.len() as int, j as int)),
        decreases cp.len() - j,
    {
        proof {
            lemma_join_components_push(vp.subrange(cb@.len() as int, j as int), vp[j as int]);
            assert(vp.subrange(cb@.len() as int, j + 1) =~= vp.subrange(
                cb@.len() as int,
                j as int,
            ).push(vp[j as int]));
        }
        if j > cb.len() {
            out.push(B_SLASH);
        }
        push_range(&mut out, cp[j].as_slice(), 0, cp[j].len());
        proof {
            assert(cp[j as int]@.subrange(0, cp[j as int]@.len() as int) =~= vp[j as int]);
            if j > cb@.len() {
                assert(out@ =~= join_components(vp.subrange(cb@.len() as int, j as int)) + seq![
                    B_SLASH,
                ] + vp[j as int]);
            }
        }
        j = j + 1;
    }
    proof {
        assert(vp.subrange(cb@.len() as int, vp.len() as int) =~= vp.skip(cb@.len() as int));
    }
    Some(out)
}

} // verus!
