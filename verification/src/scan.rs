use vstd::prelude::*;

use crate::parse::{
    first_token, first_token_bounds, parse_md_include_path, spec_parse_inclusion, LinkKindView,
    LinkType,
};
use crate::util::{
    bytes_eq, find_byte, find_byte_from, ident_end, ident_end_exec, is_ws, lemma_find_byte,
    lemma_ident_end, lemma_skip_ws_to, skip_ws_exec, skip_ws_to, subvec, ws_byte, B_BACKSLASH,
    B_HASH, B_LBRACE, B_NEWLINE, B_RBRACE,
};

verus! {

/// The identifier (`mdinclude`) of the one directive this engine expands.
pub open spec fn directive_name() -> Seq<u8> {
    seq![109u8, 100u8, 105u8, 110u8, 99u8, 108u8, 117u8, 100u8, 101u8]
}

/// The directive identifier as bytes.
pub fn directive_bytes() -> (v: Vec<u8>)
    ensures
        v@ == directive_name(),
{
    let mut v: Vec<u8> = Vec::new();
    v.push(109);
    v.push(100);
    v.push(105);
    v.push(110);
    v.push(99);
    v.push(108);
    v.push(117);
    v.push(100);
    v.push(101);
    proof {
        assert(v@ =~= directive_name());
    }
    v
}

/// First position at or after `from` where a `}}` pair begins, with no
/// intervening newline: the escaped form closes on the line it opens.
pub open spec fn find_close_pair(s: Seq<u8>, from: int) -> Option<int>
    decreases s.len() - from,
{
    if from < 0 || from + 1 >= s.len() {
        None
    } else if s[from] == B_RBRACE && s[from + 1] == B_RBRACE {
        Some(from)
    } else if s[from] == B_NEWLINE {
        None
    } else {
        find_close_pair(s, from + 1)
    }
}

pub proof fn lemma_find_close_pair(s: Seq<u8>, from: int)
    requires
        0 <= from,
    ensures
        match find_close_pair(s, from) {
            Some(e) => from <= e && e + 1 < s.len() && s[e] == B_RBRACE && s[e + 1] == B_RBRACE,
            None => true,
        },
    decreases s.len() - from,
{
    if from + 1 >= s.len() {
    } else if s[from] == B_RBRACE && s[from + 1] == B_RBRACE {
    } else if s[from] == B_NEWLINE {
    } else {
        lemma_find_close_pair(s, from + 1);
    }
}

pub fn find_close_pair_from(s: &[u8], from: usize) -> (r: Option<usize>)
    ensures
        match r {
            Some(e) => find_close_pair(s@, from as int) == Some(e as int) && from <= e && e + 1
                < s@.len(),
            None => find_close_pair(s@, from as int) is None,
        },
{
    proof {
        lemma_find_close_pair(s@, from as int);
    }
    if s.len() == 0 {
        return None;
    }
    let mut i: usize = from;
    while i < s.len() - 1
        invariant
            from <= i,
            s@.len() > 0,
            find_close_pair(s@, from as int) == find_close_pair(s@, i as int),
        decreases s.len() - i,
    {
        if s[i] == B_RBRACE && s[i + 1] == B_RBRACE {
            return Some(i);
        }
        if s[i] == B_NEWLINE {
            return None;
        }
        i = i + 1;
    }
    None
}

/// An escaped directive at `i`: a backslash, the opening marker and `#`, then
/// anything up to the first closing marker on the same line.  Yields the
/// position just past the closing marker.
pub open spec fn escaped_at(s: Seq<u8>, i: int) -> Option<int> {
    if 0 <= i && i + 3 < s.len() && s[i] == B_BACKSLASH && s[i + 1] == B_LBRACE && s[i + 2]
        == B_LBRACE && s[i + 3] == B_HASH {
        match find_close_pair(s, i + 4) {
            Some(e) => Some(e + 2),
            None => None,
        }
    } else {
        None
    }
}

/// A live directive shape at `i`: the opening marker, optional whitespace,
/// `#`, an identifier, one whitespace byte, then at least one more byte
/// before the first `}`, which the closing marker must start at.
pub struct LiveView {
    pub end: int,
    pub ident: Seq<u8>,
    pub arg_lo: int,
    pub arg_hi: int,
}

pub open spec fn live_at(s: Seq<u8>, i: int) -> Option<LiveView> {
    if 0 <= i && i + 1 < s.len() && s[i] == B_LBRACE && s[i + 1] == B_LBRACE {
        let j = skip_ws_to(s, i + 2, s.len() as int);
        if j < s.len() && s[j] == B_HASH {
            let k = ident_end(s, j + 1);
            if k > j + 1 && k < s.len() && is_ws(s[k]) {
                match find_byte(s, B_RBRACE, k) {
                    Some(m) => if m >= k + 2 && m + 1 < s.len() && s[m + 1] == B_RBRACE {
                        Some(
                            LiveView {
                                end: m + 2,
                                ident: s.subrange(j + 1, k),
                                arg_lo: k,
                                arg_hi: m,
                            },
                        )
                    } else {
                        None
                    },
                    None => None,
                }
            } else {
                None
            }
        } else {
            None
        }
    } else {
        None
    }
}

/// What the scanner sees at one position: where the match ends, and the
/// occurrence it yields, if the match is a recognized one.  A live directive
/// with an unrecognized identifier, or without an argument token, is consumed
/// and yields nothing; its text passes through unchanged.
pub struct MatchView {
    pub end: int,
    pub kind: Option<LinkKindView>,
}

pub open spec fn match_at(s: Seq<u8>, i: int) -> Option<MatchView> {
    match escaped_at(s, i) {
        Some(e) => Some(MatchView { end: e, kind: Some(LinkKindView::Escaped) }),
        None => match live_at(s, i) {
            Some(lv) => Some(
                MatchView {
                    end: lv.end,
                    kind: if lv.ident == directive_name() {
                        match first_token_bounds(s, lv.arg_lo, lv.arg_hi) {
                            Some((a, b)) => Some(spec_parse_inclusion(s.subrange(a, b))),
                            None => None,
                        }
                    } else {
                        None
                    },
                },
            ),
            None => None,
        },
    }
}

pub proof fn lemma_match_at(s: Seq<u8>, i: int)
    requires
        0 <= i,
    ensures
        match match_at(s, i) {
            Some(m) => i + 1 < m.end <= s.len(),
            None => true,
        },
{
    match escaped_at(s, i) {
        Some(e) => {
            lemma_find_close_pair(s, i + 4);
        },
        None => {
            if 0 <= i && i + 1 < s.len() && s[i] == B_LBRACE && s[i + 1] == B_LBRACE {
                lemma_skip_ws_to(s, i + 2, s.len() as int);
                let j = skip_ws_to(s, i + 2, s.len() as int);
                if j < s.len() && s[j] == B_HASH {
                    lemma_ident_end(s, j + 1);
                    let k = ident_end(s, j + 1);
                    if k > j + 1 && k < s.len() && is_ws(s[k]) {
                        lemma_find_byte(s, B_RBRACE, k);
                    }
                }
            }
        },
    }
}

/// One recognized occurrence: its span over the scanned text and its intent.
pub struct LinkView {
    pub start: int,
    pub end: int,
    pub kind: LinkKindView,
}

/// All occurrences from position `i` on, in left-to-right order; every match
/// is stepped over whole, so occurrence spans never overlap.
pub open spec fn links_from(s: Seq<u8>, i: int) -> Seq<LinkView>
    decreases s.len() - i,
{
    if i < 0 || i >= s.len() {
        Seq::empty()
    } else {
        match match_at(s, i) {
            None => links_from(s, i + 1),
            Some(m) => {
                let nxt = if i + 1 < m.end && m.end <= s.len() {
                    m.end
                } else {
                    i + 1
                };
                match m.kind {
                    None => links_from(s, nxt),
                    Some(k) => seq![LinkView { start: i, end: m.end, kind: k }] + links_from(
                        s,
                        nxt,
                    ),
                }
            },
        }
    }
}

/// Well-formedness of an occurrence list over `s` from cursor `lo`: spans are
/// in order, never overlap, and stay within the text.
pub open spec fn links_wf(s: Seq<u8>, links: Seq<LinkView>, lo: int) -> bool
    decreases links.len(),
{
    links.len() == 0 || {
        &&& lo <= links[0].start
        &&& links[0].start + 1 < links[0].end
        &&& links[0].end <= s.len()
        &&& links_wf(s, links.skip(1), links[0].end)
    }
}

pub proof fn lemma_links_wf_widen(s: Seq<u8>, links: Seq<LinkView>, lo1: int, lo2: int)
    requires
        links_wf(s, links, lo1),
        lo2 <= lo1,
    ensures
        links_wf(s, links, lo2),
{
}

pub proof fn lemma_links_from_wf(s: Seq<u8>, i: int)
    requires
        0 <= i,
    ensures
        links_wf(s, links_from(s, i), i),
    decreases s.len() - i,
{
    if i >= s.len() {
    } else {
        lemma_match_at(s, i);
        match match_at(s, i) {
            None => {
                lemma_links_from_wf(s, i + 1);
                lemma_links_wf_widen(s, links_from(s, i + 1), i + 1, i);
            },
            Some(m) => {
                lemma_links_from_wf(s, m.end);
                match m.kind {
                    None => {
                        lemma_links_wf_widen(s, links_from(s, m.end), m.end, i);
                    },
                    Some(k) => {
                        let lv = LinkView { start: i, end: m.end, kind: k };
                        let whole = seq![lv] + links_from(s, m.end);
                        assert(whole.skip(1) =~= links_from(s, m.end));
                        assert(whole[0] == lv);
                    },
                }
            },
        }
    }
}

/// One matched occurrence as the engine holds it: byte offsets into the
/// scanned text, the parsed intent, and the matched text itself.
#[derive(Clone, PartialEq, Debug)]
pub struct Link {
    pub start_index: usize,
    pub end_index: usize,
    pub link_type: LinkType,
    pub link_text: Vec<u8>,
}

impl View for Link {
    type V = LinkView;

    open spec fn view(&self) -> LinkView {
        LinkView {
            start: self.start_index as int,
            end: self.end_index as int,
            kind: self.link_type@,
        }
    }
}

/// The views of a sequence of occurrences.
pub open spec fn link_views(v: Seq<Link>) -> Seq<LinkView> {
    v.map_values(|l: Link| l@)
}

/// Match one position: the escaped form first, then the live form.
fn try_match_at(s: &[u8], i: usize) -> (r: Option<(usize, Option<Link>)>)
    requires
        i < s@.len(),
    ensures
        match r {
            None => match_at(s@, i as int) is None,
            Some(rr) => match_at(s@, i as int) matches Some(m) && {
                &&& rr.0 as int == m.end
                &&& i as int + 1 < m.end <= s@.len()
                &&& match rr.1 {
                    None => m.kind is None,
                    Some(l) => m.kind == Some(l.link_type@) && l.start_index == i && l.end_index
                        == rr.0 && l.link_text@ == s@.subrange(i as int, m.end),
                }
            },
        },
{
    proof {
        lemma_match_at(s@, i as int);
    }
    let n = s.len();
    if n - i >= 4 && s[i] == B_BACKSLASH && s[i + 1] == B_LBRACE && s[i + 2] == B_LBRACE && s[i + 3]
        == B_HASH {
        match find_close_pair_from(s, i + 4) {
            Some(e) => {
                let text = subvec(s, i, e + 2);
                return Some(
                    (
                        e + 2,
                        Some(
                            Link {
                                start_index: i,
                                end_index: e + 2,
                                link_type: LinkType::Escaped,
                                link_text: text,
                            },
                        ),
                    ),
                );
            },
            None => {
                return None;
            },
        }
    }
    if n - i >= 2 && s[i] == B_LBRACE && s[i + 1] == B_LBRACE {
        let j = skip_ws_exec(s, i + 2, n);
        if j < n && s[j] == B_HASH {
            let k = ident_end_exec(s, j + 1);
            if k > j + 1 && k < n && ws_byte(s[k]) {
                match find_byte_from(s, B_RBRACE, k) {
                    Some(m) => {
                        if m - k >= 2 && m + 1 < n && s[m + 1] == B_RBRACE {
                            let end = m + 2;
                            let idv = subvec(s, j + 1, k);
                            let name = directive_bytes();
                            let is_dir = bytes_eq(idv.as_slice(), name.as_slice());
                            if is_dir {
                                match first_token(s, k, m) {
                                    Some((a, b)) => {
                                        let tok = subvec(s, a, b);
                                        let lt = parse_md_include_path(tok.as_slice());
                                        let text = subvec(s, i, end);
                                        return Some(
                                            (
                                                end,
                                                Some(
                                                    Link {
                                                        start_index: i,
                                                        end_index: end,
                                                        link_type: lt,
                                                        link_text: text,
                                                    },
                                                ),
                                            ),
                                        );
                                    },
                                    None => {
                                        return Some((end, None));
                                    },
                                }
                            } else {
                                return Some((end, None));
                            }
                        } else {
                            return None;
                        }
                    },
                    None => {
                        return None;
                    },
                }
            } else {
                return None;
            }
        } else {
            return None;
        }
    }
    None
}

/// Scan the whole text for occurrences, in left-to-right, non-overlapping
/// order.
pub fn find_links(s: &[u8]) -> (links: Vec<Link>)
    ensures
        link_views(links@) == links_from(s@, 0),
        forall|t: int|
            0 <= t < links@.len() ==> links@[t].link_text@ == s@.subrange(
                #[trigger] links@[t]@.start,
                links@[t]@.end,
            ),
{
    let mut links: Vec<Link> = Vec::new();
    let mut i: usize = 0;
    while i < s.len()
        invariant
            links_from(s@, 0) == link_views(links@) + links_from(s@, i as int),
            forall|t: int|
                0 <= t < links@.len() ==> links@[t].link_text@ == s@.subrange(
                    #[trigger] links@[t]@.start,
                    links@[t]@.end,
                ),
        decreases s.len() - i,
    {
        match try_match_at(s, i) {
            None => {
                proof {
                    assert(links_from(s@, i as int) == links_from(s@, i + 1));
                }
                i = i + 1;
            },
            Some((e, olink)) => {
                proof {
                    let m = match_at(s@, i as int)->Some_0;
                    assert(i as int + 1 < m.end && m.end <= s@.len());
                }
                match olink {
                    None => {
                        proof {
                            assert(links_from(s@, i as int) == links_from(s@, e as int));
                        }
                    },
                    Some(l) => {
                        let ghost lv = l@;
                        links.push(l);
                        proof {
                            let m = match_at(s@, i as int)->Some_0;
                            assert(links_from(s@, i as int) == seq![
                                LinkView { start: i as int, end: m.end, kind: m.kind->Some_0 },
                            ] + links_from(s@, e as int));
                            assert(LinkView {
                                start: i as int,
                                end: m.end,
                                kind: m.kind->Some_0,
                            } == lv);
                            assert(link_views(links@) =~= link_views(links@.drop_last()).push(lv));
                            assert(link_views(links@.drop_last()) + (seq![lv] + links_from(
                                s@,
                                e as int,
                            )) =~= link_views(links@) + links_from(s@, e as int));
                        }
                    },
                }
                i = e;
            },
        }
    }
    proof {
        assert(links_from(s@, i as int) =~= Seq::<LinkView>::empty());
        assert(link_views(links@) + Seq::<LinkView>::empty() =~= link_views(links@));
    }
    links
}

} // verus!
