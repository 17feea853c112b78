use vstd::prelude::*;

use crate::parse::{LinkKindView, LinkType, RangeOrAnchor, RoaView};
use crate::paths::{join_path, join_under, parent_of, return_relative_path};
use crate::rewrite::{spec_update_relative_links, update_relative_links};
use crate::scan::{
    find_links, lemma_links_from_wf, link_views, links_from, links_wf, LinkView,
};
use crate::select::{anchored_region, selected_lines, take_anchored_lines_w, take_lines_w};
use crate::store::{FileStore, Lookup};
use crate::util::{push_range, seq_views, subvec};

verus! {

/// The bound on nested expansion along one resolution chain.
pub const MAX_DEPTH: usize = 10;

/// A diagnostic the engine reports while it degrades gracefully; no failure
/// of one occurrence stops the rest of the document.
#[derive(Clone, PartialEq, Debug)]
pub enum Diag {
    /// A directive's target could not be read: names the directive text, the
    /// resolved target path, and the document being processed.
    Unreadable { link_text: Vec<u8>, target: Vec<u8>, source: Vec<u8> },
    /// An expansion chain hit the depth bound, most often a cycle: names the
    /// document being processed.
    DepthExceeded { source: Vec<u8> },
}

pub enum DiagView {
    Unreadable { link_text: Seq<u8>, target: Seq<u8>, source: Seq<u8> },
    DepthExceeded { source: Seq<u8> },
}

impl View for Diag {
    type V = DiagView;

    open spec fn view(&self) -> DiagView {
        match self {
            Diag::Unreadable { link_text, target, source } => DiagView::Unreadable {
                link_text: link_text@,
                target: target@,
                source: source@,
            },
            Diag::DepthExceeded { source } => DiagView::DepthExceeded { source: source@ },
        }
    }
}

pub open spec fn diag_views(v: Seq<Diag>) -> Seq<DiagView> {
    v.map_values(|d: Diag| d@)
}

/// What one substitution pass yields: the rewritten text, the diagnostics in
/// the order they arose, and the resolved target paths that the snapshot had
/// no record for yet, in the order they were wanted.
pub struct GReplace {
    pub text: Seq<u8>,
    pub diags: Seq<DiagView>,
    pub missing: Seq<Seq<u8>>,
}

/// How many levels of expansion are still allowed below `depth`.
pub open spec fn rec_budget(depth: int) -> int {
    if depth >= MAX_DEPTH as int {
        0
    } else {
        MAX_DEPTH as int - depth
    }
}

/// The region a directive selects from the target file's text.
pub open spec fn selected_region(content: Seq<u8>, roa: RoaView) -> Seq<u8> {
    match roa {
        RoaView::Lines(a, b) => selected_lines(content, a, b),
        RoaView::Anchor(nm) => anchored_region(content, nm),
    }
}

/// One whole substitution pass over `s`: every occurrence replaced, all other
/// text kept byte for byte.
pub open spec fn spec_replace_all(
    s: Seq<u8>,
    base: Seq<u8>,
    source: Seq<u8>,
    depth: int,
    files: Map<Seq<u8>, Option<Seq<u8>>>,
) -> GReplace
    decreases rec_budget(depth), links_from(s, 0).len() + 1, 1int,
{
    subst_links(s, links_from(s, 0), 0, base, source, depth, files)
}

/// The tail of a pass: the occurrences still to process, with `prev` the
/// cursor into `s` just past the last processed occurrence.
pub open spec fn subst_links(
    s: Seq<u8>,
    links: Seq<LinkView>,
    prev: int,
    base: Seq<u8>,
    source: Seq<u8>,
    depth: int,
    files: Map<Seq<u8>, Option<Seq<u8>>>,
) -> GReplace
    decreases rec_budget(depth), links.len(), 1int,
{
    if links.len() == 0 {
        GReplace {
            text: s.subrange(prev, s.len() as int),
            diags: Seq::empty(),
            missing: Seq::empty(),
        }
    } else {
        let l = links[0];
        let pre = s.subrange(prev, l.start);
        let piece = link_piece(s, l, base, source, depth, files);
        let rest = subst_links(s, links.skip(1), l.end, base, source, depth, files);
        GReplace {
            text: pre + piece.text + rest.text,
            diags: piece.diags + rest.diags,
            missing: piece.missing + rest.missing,
        }
    }
}

/// What one occurrence contributes.  An escaped directive is emitted minus
/// its escape byte.  An inclusion resolves its path under the base
/// directory, selects the requested region of the target's text, rewrites
/// relative links for the new location, and, while the depth bound allows,
/// expands the result in turn; the target's parent directory becomes the base
/// for that inner pass.  A target the snapshot has no record for is asked
/// for; an unreadable target leaves the directive text in place, with a
/// diagnostic; a chain past the depth bound emits nothing but a diagnostic.
pub open spec fn link_piece(
    s: Seq<u8>,
    l: LinkView,
    base: Seq<u8>,
    source: Seq<u8>,
    depth: int,
    files: Map<Seq<u8>, Option<Seq<u8>>>,
) -> GReplace
    decreases rec_budget(depth), 0int, 0int,
{
    match l.kind {
        LinkKindView::Escaped => GReplace {
            text: s.subrange(l.start + 1, l.end),
            diags: Seq::empty(),
            missing: Seq::empty(),
        },
        LinkKindView::Inclusion(p, roa) => {
            let target = join_under(base, p);
            let parent = parent_of(target);
            if !files.contains_key(target) {
                GReplace {
                    text: s.subrange(l.start, l.end),
                    diags: Seq::empty(),
                    missing: seq![target],
                }
            } else {
                match files[target] {
                    None => GReplace {
                        text: s.subrange(l.start, l.end),
                        diags: seq![
                            DiagView::Unreadable {
                                link_text: s.subrange(l.start, l.end),
                                target,
                                source,
                            },
                        ],
                        missing: Seq::empty(),
                    },
                    Some(content) => {
                        let selected = selected_region(content, roa);
                        let rewritten = spec_update_relative_links(selected, base, parent);
                        if depth < MAX_DEPTH as int {
                            spec_replace_all(rewritten, parent, source, depth + 1, files)
                        } else {
                            GReplace {
                                text: Seq::empty(),
                                diags: seq![DiagView::DepthExceeded { source }],
                                missing: Seq::empty(),
                            }
                        }
                    },
                }
            }
        },
    }
}

/// What one pass of the engine hands back.
pub struct ReplaceResult {
    pub text: Vec<u8>,
    pub diags: Vec<Diag>,
    pub missing: Vec<Vec<u8>>,
}

impl View for ReplaceResult {
    type V = GReplace;

    open spec fn view(&self) -> GReplace {
        GReplace {
            text: self.text@,
            diags: diag_views(self.diags@),
            missing: seq_views(self.missing@),
        }
    }
}

/// The whole loop-body relation: what is done so far plus what the remaining
/// occurrences yield is the whole pass.
pub open spec fn engine_inv(
    s: Seq<u8>,
    base: Seq<u8>,
    source: Seq<u8>,
    depth: int,
    files: Map<Seq<u8>, Option<Seq<u8>>>,
    txt: Seq<u8>,
    dgs: Seq<DiagView>,
    msg: Seq<Seq<u8>>,
    idx: int,
    prev: int,
) -> bool {
    let rest = subst_links(s, links_from(s, 0).skip(idx), prev, base, source, depth, files);
    let whole = spec_replace_all(s, base, source, depth, files);
    &&& whole.text == txt + rest.text
    &&& whole.diags == dgs + rest.diags
    &&& whole.missing == msg + rest.missing
}

/// Expand every directive occurrence in `s`, resolving paths under `path`;
/// `source` names the document for diagnostics only, `depth` is how many
/// expansion levels already lie above this text, and `files` is the snapshot
/// of file reads the pass works from.  Non-occurrence text is kept byte for
/// byte; whoever drives the engine reads each path listed in `missing`,
/// records it in the snapshot, and runs the pass again.
#[verifier::rlimit(100)]
#[verifier::spinoff_prover]
pub fn replace_all(s: &[u8], path: &[u8], source: &[u8], depth: usize, files: &FileStore) -> (r:
    ReplaceResult)
    ensures
        r@ == spec_replace_all(s@, path@, source@, depth as int, files@),
    decreases rec_budget(depth as int),
{
    let links = find_links(s);
    proof {
        lemma_links_from_wf(s@, 0);
        assert(links_from(s@, 0).skip(0) =~= links_from(s@, 0));
    }
    let mut text: Vec<u8> = Vec::new();
    let mut diags: Vec<Diag> = Vec::new();
    let mut missing: Vec<Vec<u8>> = Vec::new();
    let mut prev: usize = 0;
    let mut idx: usize = 0;
    proof {
        assert(Seq::<u8>::empty() + subst_links(
            s@,
            links_from(s@, 0),
            0,
            path@,
            source@,
            depth as int,
            files@,
        ).text =~= subst_links(s@, links_from(s@, 0), 0, path@, source@, depth as int, files@).text);
        assert(Seq::<DiagView>::empty() + subst_links(
            s@,
            links_from(s@, 0),
            0,
            path@,
            source@,
            depth as int,
            files@,
        ).diags =~= subst_links(
            s@,
            links_from(s@, 0),
            0,
            path@,
            source@,
            depth as int,
            files@,
        ).diags);
        assert(Seq::<Seq<u8>>::empty() + subst_links(
            s@,
            links_from(s@, 0),
            0,
            path@,
            source@,
            depth as int,
            files@,
        ).missing =~= subst_links(
            s@,
            links_from(s@, 0),
            0,
            path@,
            source@,
            depth as int,
            files@,
        ).missing);
    }
    while idx < links.len()
        invariant
            idx <= links@.len(),
            prev <= s@.len(),
            link_views(links@) == links_from(s@, 0),
            links_wf(s@, links_from(s@, 0).skip(idx as int), prev as int),
            engine_inv(
                s@,
                path@,
                source@,
                depth as int,
                files@,
                text@,
                diag_views(diags@),
                seq_views(missing@),
                idx as int,
                prev as int,
            ),
        decreases links.len() - idx,
    {
        let ghost all = links_from(s@, 0);
        let ghost lv = all[idx as int];
        let ghost tail = all.skip(idx as int);
        proof {
            assert(tail[0] == all[idx as int]);
            assert(link_views(links@)[idx as int] == links@[idx as int]@);
            assert(tail.skip(1) =~= all.skip(idx as int + 1));
            assert(prev <= lv.start && lv.start + 1 < lv.end && lv.end <= s@.len());
        }
        let l = &links[idx];
        let ghost piece = link_piece(s@, lv, path@, source@, depth as int, files@);
        let ghost rest0 = subst_links(
            s@,
            tail,
            prev as int,
            path@,
            source@,
            depth as int,
            files@,
        );
        let ghost rest1 = subst_links(
            s@,
            all.skip(idx as int + 1),
            lv.end,
            path@,
            source@,
            depth as int,
            files@,
        );
        proof {
            assert(rest0.text == s@.subrange(prev as int, lv.start) + piece.text + rest1.text);
            assert(rest0.diags == piece.diags + rest1.diags);
            assert(rest0.missing == piece.missing + rest1.missing);
        }
        let ghost text0 = text@;
        let ghost diags0 = diag_views(diags@);
        let ghost missing0 = seq_views(missing@);
        push_range(&mut text, s, prev, l.start_index);
        match &l.link_type {
            LinkType::Escaped => {
                push_range(&mut text, s, l.start_index + 1, l.end_index);
                proof {
                    assert(text@ =~= text0 + (s@.subrange(prev as int, lv.start) + piece.text));
                }
            },
            LinkType::Inclusion(p, roa) => {
                let target = join_path(path, p.as_slice());
                let parent = return_relative_path(path, p.as_slice());
                match files.get(target.as_slice()) {
                    Lookup::Missing => {
                        push_range(&mut text, s, l.start_index, l.end_index);
                        missing.push(target);
                        proof {
                            assert(text@ =~= text0 + (s@.subrange(prev as int, lv.start)
                                + piece.text));
                            assert(seq_views(missing@) =~= missing0 + piece.missing);
                        }
                    },
                    Lookup::Unreadable => {
                        let lt = subvec(s, l.start_index, l.end_index);
                        let src = subvec(source, 0, source.len());
                        push_range(&mut text, s, l.start_index, l.end_index);
                        proof {
                            assert(source@.subrange(0, source@.len() as int) =~= source@);
                        }
                        diags.push(Diag::Unreadable { link_text: lt, target, source: src });
                        proof {
                            assert(text@ =~= text0 + (s@.subrange(prev as int, lv.start)
                                + piece.text));
                            assert(diag_views(diags@) =~= diags0 + piece.diags);
                        }
                    },
                    Lookup::Content(content) => {
                        let selected = match roa {
                            RangeOrAnchor::Range(lr) => take_lines_w(content.as_slice(), lr),
                            RangeOrAnchor::Anchor(nm) => take_anchored_lines_w(
                                content.as_slice(),
                                nm.as_slice(),
                            ),
                        };
                        proof {
                            assert(selected@ == selected_region(content@, roa@));
                        }
                        let rewritten = update_relative_links(
                            selected.as_slice(),
                            path,
                            parent.as_slice(),
                        );
                        if depth < MAX_DEPTH {
                            let inner = replace_all(
                                rewritten.as_slice(),
                                parent.as_slice(),
                                source,
                                depth + 1,
                                files,
                            );
                            let ghost iv = inner@;
                            proof {
                                assert(iv == piece);
                            }
                            push_range(&mut text, inner.text.as_slice(), 0, inner.text.len());
                            let mut idiags = inner.diags;
                            let mut imissing = inner.missing;
                            diags.append(&mut idiags);
                            missing.append(&mut imissing);
                            proof {
                                assert(inner.text@.subrange(0, inner.text@.len() as int)
                                    =~= piece.text);
                                assert(text@ =~= text0 + (s@.subrange(prev as int, lv.start)
                                    + piece.text));
                                assert(diag_views(diags@) =~= diags0 + piece.diags);
                                assert(seq_views(missing@) =~= missing0 + piece.missing);
                            }
                        } else {
                            let src = subvec(source, 0, source.len());
                            proof {
                                assert(source@.subrange(0, source@.len() as int) =~= source@);
                            }
                            diags.push(Diag::DepthExceeded { source: src });
                            proof {
                                assert(text@ =~= text0 + (s@.subrange(prev as int, lv.start)
                                    + piece.text));
                                assert(diag_views(diags@) =~= diags0 + piece.diags);
                            }
                        }
                    },
                }
            },
        }
        prev = l.end_index;
        idx = idx + 1;
        proof {
            assert(text@ + rest1.text =~= text0 + rest0.text);
            assert(diag_views(diags@) + rest1.diags =~= diags0 + rest0.diags);
            assert(seq_views(missing@) + rest1.missing =~= missing0 + rest0.missing);
        }
    }
    proof {
        assert(links_from(s@, 0).skip(idx as int) =~= Seq::<LinkView>::empty());
    }
    push_range(&mut text, s, prev, s.len());
    proof {
        assert(s@.subrange(prev as int, s@.len() as int) == subst_links(
            s@,
            links_from(s@, 0).skip(idx as int),
            prev as int,
            path@,
            source@,
            depth as int,
            files@,
        ).text);
        assert(diag_views(diags@) + Seq::<DiagView>::empty() =~= diag_views(diags@));
        assert(seq_views(missing@) + Seq::<Seq<u8>>::empty() =~= seq_views(missing@));
    }
    ReplaceResult { text, diags, missing }
}

} // verus!
