use vstd::prelude::*;

use crate::paths::{folder_of, insertion_folder};
use crate::util::{
    find_byte, find_byte_from, lemma_find_byte, push_range, subvec, B_BACKSLASH, B_BANG, B_DOT,
    B_LBRACKET, B_LPAREN, B_NEWLINE, B_RBRACKET, B_RPAREN, B_SLASH,
};

verus! {

/// Separators normalized: every backslash becomes a forward slash.
pub open spec fn seps_normalized(s: Seq<u8>) -> Seq<u8> {
    s.map_values(
        |b: u8|
            if b == B_BACKSLASH {
                B_SLASH
            } else {
                b
            },
    )
}

/// Copy `s[from..to]` onto `out` with separators normalized.
pub fn push_mapped(out: &mut Vec<u8>, s: &[u8], from: usize, to: usize)
    requires
        from <= to <= s@.len(),
    ensures
        final(out)@ == old(out)@ + seps_normalized(s@.subrange(from as int, to as int)),
{
    let mut i: usize = from;
    while i < to
        invariant
            from <= i <= to <= s@.len(),
            out@ == old(out)@ + seps_normalized(s@.subrange(from as int, i as int)),
        decreases to - i,
    {
        let b = s[i];
        out.push(
            if b == B_BACKSLASH {
                B_SLASH
            } else {
                b
            },
        );
        proof {
            assert(seps_normalized(s@.subrange(from as int, i + 1)) =~= seps_normalized(
                s@.subrange(from as int, i as int),
            ).push(
                if s@[i as int] == B_BACKSLASH {
                    B_SLASH
                } else {
                    s@[i as int]
                },
            ));
        }
        i = i + 1;
    }
    proof {
        assert(s@.subrange(from as int, to as int) == s@.subrange(from as int, i as int));
    }
}

/// Whether a reference tail starts at `j`: `](` immediately followed by `./`,
/// then at least one byte before the first `)`, which closes the reference.
pub open spec fn tail_ok(c: Seq<u8>, j: int) -> bool {
    &&& 0 <= j
    &&& j + 4 < c.len()
    &&& c[j] == B_RBRACKET
    &&& c[j + 1] == B_LPAREN
    &&& c[j + 2] == B_DOT
    &&& c[j + 3] == B_SLASH
    &&& match find_byte(c, B_RPAREN, j + 4) {
        Some(m) => m > j + 4,
        None => false,
    }
}

/// First position at or after `from` where a reference tail starts; the text
/// before it must stay on one line.
pub open spec fn find_body_end(c: Seq<u8>, from: int) -> Option<int>
    decreases c.len() - from,
{
    if from < 0 || from >= c.len() {
        None
    } else if c[from] == B_NEWLINE {
        None
    } else if tail_ok(c, from) {
        Some(from)
    } else {
        find_body_end(c, from + 1)
    }
}

pub proof fn lemma_find_body_end(c: Seq<u8>, from: int)
    requires
        0 <= from,
    ensures
        match find_body_end(c, from) {
            Some(j) => from <= j < c.len() && tail_ok(c, j),
            None => true,
        },
    decreases c.len() - from,
{
    if from >= c.len() {
    } else if c[from] == B_NEWLINE {
    } else if tail_ok(c, from) {
    } else {
        lemma_find_body_end(c, from + 1);
    }
}

fn tail_ok_exec(c: &[u8], j: usize) -> (r: bool)
    requires
        j < c@.len(),
    ensures
        r == tail_ok(c@, j as int),
{
    let n = c.len();
    if !(n - j >= 5) {
        return false;
    }
    if !(c[j] == B_RBRACKET && c[j + 1] == B_LPAREN && c[j + 2] == B_DOT && c[j + 3] == B_SLASH) {
        return false;
    }
    match find_byte_from(c, B_RPAREN, j + 4) {
        Some(m) => m > j + 4,
        None => false,
    }
}

fn find_body_end_from(c: &[u8], from: usize) -> (r: Option<usize>)
    ensures
        match r {
            Some(j) => find_body_end(c@, from as int) == Some(j as int) && from <= j && tail_ok(
                c@,
                j as int,
            ),
            None => find_body_end(c@, from as int) is None,
        },
{
    proof {
        lemma_find_body_end(c@, from as int);
    }
    let mut i: usize = from;
    while i < c.len()
        invariant
            from <= i,
            find_body_end(c@, from as int) == find_body_end(c@, i as int),
        decreases c.len() - i,
    {
        if c[i] == B_NEWLINE {
            return None;
        }
        if tail_ok_exec(c, i) {
            return Some(i);
        }
        i = i + 1;
    }
    None
}

/// A matched image or link reference: where it ends, its text part, the part
/// of its target after the leading `./`, and whether it is an image.
pub struct MdRefView {
    pub end: int,
    pub text: Seq<u8>,
    pub rest: Seq<u8>,
    pub img: bool,
}

/// The reference starting at `i`, if any: `![text](./rest)` or
/// `[text](./rest)`, the text on one line, the target free of `)`.
pub open spec fn ref_at(c: Seq<u8>, i: int) -> Option<MdRefView> {
    if 0 <= i && i + 1 < c.len() && c[i] == B_BANG && c[i + 1] == B_LBRACKET {
        match find_body_end(c, i + 2) {
            Some(j) => match find_byte(c, B_RPAREN, j + 4) {
                Some(m) => Some(
                    MdRefView {
                        end: m + 1,
                        text: c.subrange(i + 2, j),
                        rest: c.subrange(j + 4, m),
                        img: true,
                    },
                ),
                None => None,
            },
            None => None,
        }
    } else if 0 <= i && i < c.len() && c[i] == B_LBRACKET {
        match find_body_end(c, i + 1) {
            Some(j) => match find_byte(c, B_RPAREN, j + 4) {
                Some(m) => Some(
                    MdRefView {
                        end: m + 1,
                        text: c.subrange(i + 1, j),
                        rest: c.subrange(j + 4, m),
                        img: false,
                    },
                ),
                None => None,
            },
            None => None,
        }
    } else {
        None
    }
}

pub proof fn lemma_ref_at(c: Seq<u8>, i: int)
    requires
        0 <= i,
    ensures
        match ref_at(c, i) {
            Some(g) => i + 1 < g.end <= c.len(),
            None => true,
        },
{
    if 0 <= i && i + 1 < c.len() && c[i] == B_BANG && c[i + 1] == B_LBRACKET {
        lemma_find_body_end(c, i + 2);
        match find_body_end(c, i + 2) {
            Some(j) => {
                lemma_find_byte(c, B_RPAREN, j + 4);
            },
            None => {},
        }
    } else if 0 <= i && i < c.len() && c[i] == B_LBRACKET {
        lemma_find_body_end(c, i + 1);
        match find_body_end(c, i + 1) {
            Some(j) => {
                lemma_find_byte(c, B_RPAREN, j + 4);
            },
            None => {},
        }
    }
}

/// The rewritten target: the insertion folder put in front of the target
/// (its leading `./` dropped), with separators normalized.
pub open spec fn rewritten_target(folder: Seq<u8>, rest: Seq<u8>) -> Seq<u8> {
    if folder.len() == 0 {
        seps_normalized(rest)
    } else {
        seps_normalized(folder + seq![B_SLASH] + rest)
    }
}

/// A reference, rebuilt around its rewritten target; the text part is kept
/// untouched.
pub open spec fn rebuilt_ref(g: MdRefView, folder: Seq<u8>) -> Seq<u8> {
    (if g.img {
        seq![B_BANG, B_LBRACKET]
    } else {
        seq![B_LBRACKET]
    }) + g.text + seq![B_RBRACKET, B_LPAREN] + rewritten_target(folder, g.rest) + seq![B_RPAREN]
}

/// The content from position `i` on, with every reference rewritten.
pub open spec fn rewrite_from(c: Seq<u8>, i: int, folder: Seq<u8>) -> Seq<u8>
    decreases c.len() - i,
{
    if i < 0 || i >= c.len() {
        Seq::empty()
    } else {
        match ref_at(c, i) {
            Some(g) => {
                let nxt = if i + 1 < g.end && g.end <= c.len() {
                    g.end
                } else {
                    i + 1
                };
                rebuilt_ref(g, folder) + rewrite_from(c, nxt, folder)
            },
            None => seq![c[i]] + rewrite_from(c, i + 1, folder),
        }
    }
}

/// What rewriting relative links does: when the inserted file's parent lies
/// under the base directory, every `![text](./p)` image and `[text](./p)`
/// link in the content has the insertion folder put in front of `p`; all
/// other content is kept byte for byte.  When the parent does not lie under
/// the base, the content is untouched.
pub open spec fn spec_update_relative_links(c: Seq<u8>, base: Seq<u8>, parent: Seq<u8>) -> Seq<
    u8,
> {
    match folder_of(base, parent) {
        None => c,
        Some(f) => rewrite_from(c, 0, f),
    }
}

/// Rewrite relative image and link targets in inserted content so they still
/// resolve from the base directory.
#[verifier::rlimit(100)]
#[verifier::spinoff_prover]
pub fn update_relative_links(content: &[u8], path: &[u8], relative_path: &[u8]) -> (r: Vec<u8>)
    ensures
        r@ == spec_update_relative_links(content@, path@, relative_path@),
{
    let folder = match insertion_folder(path, relative_path) {
        None => {
            let r = subvec(content, 0, content.len());
            proof {
                assert(content@.subrange(0, content@.len() as int) =~= content@);
            }
            return r;
        },
        Some(f) => f,
    };
    let n = content.len();
    let mut out: Vec<u8> = Vec::new();
    let mut i: usize = 0;
    while i < n
        invariant
            n == content@.len(),
            folder_of(path@, relative_path@) == Some(folder@),
            rewrite_from(content@, 0, folder@) == out@ + rewrite_from(content@, i as int, folder@),
        decreases n - i,
    {
        proof {
            lemma_ref_at(content@, i as int);
        }
        let is_img = content[i] == B_BANG && i + 1 < n && content[i + 1] == B_LBRACKET;
        let is_link = content[i] == B_LBRACKET;
        let body = if is_img {
            find_body_end_from(content, i + 2)
        } else if is_link {
            find_body_end_from(content, i + 1)
        } else {
            None
        };
        let mut matched = false;
        if let Some(j) = body {
            match find_byte_from(content, B_RPAREN, j + 4) {
                Some(m) => {
                    let ghost g = ref_at(content@, i as int)->Some_0;
                    proof {
                        assert(g.end == m + 1 && g.img == is_img);
                        assert(g.text == content@.subrange(
                            if is_img {
                                i + 2
                            } else {
                                i + 1
                            },
                            j as int,
                        ));
                        assert(g.rest == content@.subrange(j + 4, m as int));
                    }
                    let tstart = if is_img {
                        i + 2
                    } else {
                        i + 1
                    };
                    let mut piece: Vec<u8> = Vec::new();
                    if is_img {
                        piece.push(B_BANG);
                    }
                    piece.push(B_LBRACKET);
                    proof {
                        if is_img {
                            assert(piece@ =~= seq![B_BANG, B_LBRACKET]);
                        } else {
                            assert(piece@ =~= seq![B_LBRACKET]);
                        }
                    }
                    push_range(&mut piece, content, tstart, j);
                    piece.push(B_RBRACKET);
                    piece.push(B_LPAREN);
                    let ghost mid = piece@;
                    proof {
                        assert(mid =~= (if g.img {
                            seq![B_BANG, B_LBRACKET]
                        } else {
                            seq![B_LBRACKET]
                        }) + g.text + seq![B_RBRACKET, B_LPAREN]);
                    }
                    if folder.len() > 0 {
                        push_mapped(&mut piece, folder.as_slice(), 0, folder.len());
                        piece.push(B_SLASH);
                    }
                    push_mapped(&mut piece, content, j + 4, m);
                    piece.push(B_RPAREN);
                    proof {
                        assert(folder@.subrange(0, folder@.len() as int) =~= folder@);
                        if folder@.len() > 0 {
                            assert(piece@ =~= mid + (seps_normalized(folder@).push(B_SLASH)
                                + seps_normalized(g.rest)).push(B_RPAREN));
                            assert(seps_normalized(folder@).push(B_SLASH) + seps_normalized(g.rest)
                                =~= seps_normalized(folder@ + seq![B_SLASH] + g.rest));
                        }
                        assert(piece@ =~= rebuilt_ref(g, folder@));
                    }
                    let ghost out0 = out@;
                    push_range(&mut out, piece.as_slice(), 0, piece.len());
                    proof {
                        assert(piece@.subrange(0, piece@.len() as int) =~= piece@);
                        assert(rewrite_from(content@, i as int, folder@) == rebuilt_ref(g, folder@)
                            + rewrite_from(content@, m + 1, folder@));
                        assert(out0 + (rebuilt_ref(g, folder@) + rewrite_from(
                            content@,
                            m + 1,
                            folder@,
                        )) =~= out@ + rewrite_from(content@, m + 1, folder@));
                    }
                    matched = true;
                    i = m + 1;
                },
                None => {
                },
            }
        }
        if !matched {
            proof {
                assert(ref_at(content@, i as int) is None);
            }
            out.push(content[i]);
            proof {
                assert((out@ =~= out@.drop_last().push(content@[i as int])));
                assert(out@.drop_last() + (seq![content@[i as int]] + rewrite_from(
                    content@,
                    i + 1,
                    folder@,
                )) =~= out@ + rewrite_from(content@, i + 1, folder@));
            }
            i = i + 1;
        }
    }
    proof {
        assert(rewrite_from(content@, i as int, folder@) =~= Seq::<u8>::empty());
        assert(out@ + Seq::<u8>::empty() =~= out@);
    }
    out
}

} // verus!
