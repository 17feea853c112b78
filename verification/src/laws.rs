use vstd::prelude::*;

use crate::engine::{link_piece, spec_replace_all, subst_links, DiagView, MAX_DEPTH};
use crate::parse::LinkKindView;
use crate::paths::join_under;
use crate::scan::{
    directive_name, escaped_at, lemma_links_from_wf, links_from, links_wf, live_at, match_at,
    LinkView,
};
use crate::util::{B_BACKSLASH, B_LBRACE};

verus! {

/// A text in which the scanner finds no occurrence comes through a pass byte
/// for byte, with no diagnostic and no file wanted.  This covers both text
/// with no directive-like spans at all and text whose directive-like spans
/// all carry unrecognized identifiers or empty arguments.
pub proof fn lemma_no_occurrences_identity(
    s: Seq<u8>,
    base: Seq<u8>,
    source: Seq<u8>,
    depth: int,
    files: Map<Seq<u8>, Option<Seq<u8>>>,
)
    requires
        links_from(s, 0).len() == 0,
    ensures
        spec_replace_all(s, base, source, depth, files).text == s,
        spec_replace_all(s, base, source, depth, files).diags == Seq::<DiagView>::empty(),
        spec_replace_all(s, base, source, depth, files).missing == Seq::<Seq<u8>>::empty(),
{
    assert(s.subrange(0, s.len() as int) =~= s);
}

/// A live directive span whose identifier is not the recognized one is no
/// occurrence: the scanner consumes it and yields nothing for it.
pub proof fn lemma_unknown_identifier_no_occurrence(s: Seq<u8>, i: int)
    requires
        live_at(s, i) is Some,
        live_at(s, i)->Some_0.ident != directive_name(),
    ensures
        match_at(s, i) is Some,
        match_at(s, i)->Some_0.kind is None,
{
    assert(s[i] == B_LBRACE && B_LBRACE != B_BACKSLASH);
    assert(escaped_at(s, i) is None);
}

proof fn lemma_subst_depth_saturated(
    s: Seq<u8>,
    links: Seq<LinkView>,
    prev: int,
    base: Seq<u8>,
    source: Seq<u8>,
    d1: int,
    d2: int,
    files: Map<Seq<u8>, Option<Seq<u8>>>,
)
    requires
        d1 >= MAX_DEPTH as int,
        d2 >= MAX_DEPTH as int,
    ensures
        subst_links(s, links, prev, base, source, d1, files) == subst_links(
            s,
            links,
            prev,
            base,
            source,
            d2,
            files,
        ),
    decreases links.len(),
{
    if links.len() == 0 {
    } else {
        let l = links[0];
        assert(link_piece(s, l, base, source, d1, files) == link_piece(
            s,
            l,
            base,
            source,
            d2,
            files,
        ));
        lemma_subst_depth_saturated(s, links.skip(1), l.end, base, source, d1, d2, files);
    }
}

/// Past the depth bound the pass no longer depends on how far past it is:
/// expansion has stopped, so a cyclic chain of inclusions terminates with the
/// same saturated output however it is entered.
pub proof fn lemma_depth_saturates(
    s: Seq<u8>,
    base: Seq<u8>,
    source: Seq<u8>,
    d1: int,
    d2: int,
    files: Map<Seq<u8>, Option<Seq<u8>>>,
)
    requires
        d1 >= MAX_DEPTH as int,
        d2 >= MAX_DEPTH as int,
    ensures
        spec_replace_all(s, base, source, d1, files) == spec_replace_all(
            s,
            base,
            source,
            d2,
            files,
        ),
{
    lemma_subst_depth_saturated(s, links_from(s, 0), 0, base, source, d1, d2, files);
}

/// A document with one inclusion occurrence whose target cannot be read comes
/// through unchanged — the directive text stays in place — and the one
/// diagnostic names the resolved target and the source document.
pub proof fn lemma_unreadable_keeps_directive(
    s: Seq<u8>,
    base: Seq<u8>,
    source: Seq<u8>,
    depth: int,
    files: Map<Seq<u8>, Option<Seq<u8>>>,
    p: Seq<u8>,
    l: LinkView,
)
    requires
        links_from(s, 0) == seq![l],
        l.kind matches LinkKindView::Inclusion(q, _) && q == p,
        files.contains_key(join_under(base, p)),
        files[join_under(base, p)] is None,
    ensures
        spec_replace_all(s, base, source, depth, files).text == s,
        spec_replace_all(s, base, source, depth, files).diags == seq![
            DiagView::Unreadable {
                link_text: s.subrange(l.start, l.end),
                target: join_under(base, p),
                source,
            },
        ],
        spec_replace_all(s, base, source, depth, files).missing == Seq::<Seq<u8>>::empty(),
{
    lemma_links_from_wf(s, 0);
    let links = links_from(s, 0);
    assert(links_wf(s, links, 0));
    assert(links[0] == l);
    assert(0 <= l.start && l.start + 1 < l.end && l.end <= s.len());
    let piece = link_piece(s, l, base, source, depth, files);
    assert(piece.text == s.subrange(l.start, l.end));
    let tail = links.skip(1);
    assert(tail.len() == 0);
    let rest = subst_links(s, tail, l.end, base, source, depth, files);
    assert(rest.text == s.subrange(l.end, s.len() as int));
    let whole = spec_replace_all(s, base, source, depth, files);
    assert(whole.text == s.subrange(0, l.start) + piece.text + rest.text);
    assert(s.subrange(0, l.start) + s.subrange(l.start, l.end) + s.subrange(
        l.end,
        s.len() as int,
    ) =~= s);
    assert(whole.diags =~= piece.diags);
    assert(whole.missing =~= Seq::<Seq<u8>>::empty());
}

} // verus!
