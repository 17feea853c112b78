use vstd::prelude::*;

use crate::paths::return_relative_path;
use crate::util::{
    digit_byte, find_byte, find_byte_from, is_digit, is_ws, lemma_find_byte, skip_ws_exec,
    skip_ws_to, subvec, ws_byte, B_COLON, B_PLUS,
};

verus! {

/// A line selection taken from a directive argument, over 0-based line
/// numbers; `Range` is half-open.
#[derive(Clone, PartialEq, Debug)]
pub enum LineRange {
    Range(usize, usize),
    RangeFrom(usize),
    RangeTo(usize),
    RangeFull,
}

/// What a directive selects from the target file: a line range or a named
/// anchor region.
#[derive(Clone, PartialEq, Debug)]
pub enum RangeOrAnchor {
    Range(LineRange),
    Anchor(Vec<u8>),
}

/// A recognized occurrence's intent: an escaped directive to be emitted
/// literally, or a real inclusion of `path` restricted to a region.
#[derive(Clone, PartialEq, Debug)]
pub enum LinkType {
    Escaped,
    Inclusion(Vec<u8>, RangeOrAnchor),
}

/// The mathematical image of a `RangeOrAnchor`: a line window given by
/// optional 0-based start (inclusive) and end (exclusive), or an anchor name.
pub enum RoaView {
    Lines(Option<int>, Option<int>),
    Anchor(Seq<u8>),
}

/// The mathematical image of a `LinkType`.
pub enum LinkKindView {
    Escaped,
    Inclusion(Seq<u8>, RoaView),
}

impl View for RangeOrAnchor {
    type V = RoaView;

    open spec fn view(&self) -> RoaView {
        match self {
            RangeOrAnchor::Range(LineRange::Range(a, b)) => RoaView::Lines(
                Some(*a as int),
                Some(*b as int),
            ),
            RangeOrAnchor::Range(LineRange::RangeFrom(a)) => RoaView::Lines(Some(*a as int), None),
            RangeOrAnchor::Range(LineRange::RangeTo(b)) => RoaView::Lines(None, Some(*b as int)),
            RangeOrAnchor::Range(LineRange::RangeFull) => RoaView::Lines(None, None),
            RangeOrAnchor::Anchor(name) => RoaView::Anchor(name@),
        }
    }
}

impl View for LinkType {
    type V = LinkKindView;

    open spec fn view(&self) -> LinkKindView {
        match self {
            LinkType::Escaped => LinkKindView::Escaped,
            LinkType::Inclusion(p, roa) => LinkKindView::Inclusion(p@, roa@),
        }
    }
}

impl LinkType {
    /// The directory that relative paths in the inserted content resolve
    /// from: the target file's parent, for an inclusion; nothing, for an
    /// escaped directive.
    pub fn relative_path(&self, base: &[u8]) -> (r: Option<Vec<u8>>)
        ensures
            match self@ {
                LinkKindView::Escaped => r is None,
                LinkKindView::Inclusion(p, _) => r matches Some(v) && v@ == crate::paths::parent_of(
                    crate::paths::join_under(base@, p),
                ),
            },
    {
        match self {
            LinkType::Escaped => None,
            LinkType::Inclusion(p, _) => Some(return_relative_path(base, p.as_slice())),
        }
    }
}

/// The numeric value of a digit string.
pub open spec fn digits_val(s: Seq<u8>) -> int
    decreases s.len(),
{
    if s.len() == 0 {
        0
    } else {
        digits_val(s.drop_last()) * 10 + (s.last() - 48)
    }
}

proof fn lemma_digits_val_nonneg(s: Seq<u8>)
    requires
        all_digits(s),
    ensures
        digits_val(s) >= 0,
    decreases s.len(),
{
    if s.len() > 0 {
        assert(all_digits(s.drop_last())) by {
            assert(forall|i: int| 0 <= i < s.len() - 1 ==> s.drop_last()[i] == s[i]);
        }
        lemma_digits_val_nonneg(s.drop_last());
        assert(digits_val(s.drop_last()) * 10 >= 0) by (nonlinear_arith)
            requires
                digits_val(s.drop_last()) >= 0,
        ;
        assert(is_digit(s.last()));
    }
}

pub open spec fn all_digits(s: Seq<u8>) -> bool {
    forall|i: int| 0 <= i < s.len() ==> is_digit(s[i])
}

/// The token with one leading `+` sign removed.
pub open spec fn plus_stripped(s: Seq<u8>) -> Seq<u8> {
    if s.len() > 0 && s[0] == B_PLUS {
        s.subrange(1, s.len() as int)
    } else {
        s
    }
}

/// The value of a decimal integer token, written as `usize::from_str` reads
/// it: an optional leading `+`, then one or more digits, with a value that
/// fits in `usize`.
pub open spec fn spec_parse_usize(s: Seq<u8>) -> Option<int> {
    if plus_stripped(s).len() > 0 && all_digits(plus_stripped(s)) && digits_val(plus_stripped(s))
        <= usize::MAX {
        Some(digits_val(plus_stripped(s)))
    } else {
        None
    }
}

proof fn lemma_digits_val_prefix_le(s: Seq<u8>, j: int)
    requires
        all_digits(s),
        0 <= j <= s.len(),
    ensures
        digits_val(s.subrange(0, j)) <= digits_val(s),
    decreases s.len() - j,
{
    if j == s.len() {
        assert(s.subrange(0, j) =~= s);
    } else {
        let a = s.subrange(0, j);
        let b = s.subrange(0, j + 1);
        assert(b.drop_last() =~= a);
        assert(digits_val(b) == digits_val(a) * 10 + (b.last() - 48));
        assert(all_digits(a)) by {
            assert(forall|i: int| 0 <= i < a.len() ==> a[i] == s[i]);
        }
        lemma_digits_val_nonneg(a);
        assert(digits_val(a) * 10 >= digits_val(a)) by (nonlinear_arith)
            requires
                digits_val(a) >= 0,
        ;
        assert(is_digit(s[j]));
        lemma_digits_val_prefix_le(s, j + 1);
    }
}

/// Parse a decimal integer exactly as `spec_parse_usize` says.
pub fn parse_usize(s: &[u8]) -> (r: Option<usize>)
    ensures
        match r {
            Some(v) => spec_parse_usize(s@) == Some(v as int),
            None => spec_parse_usize(s@) is None,
        },
{
    let start: usize = if s.len() > 0 && s[0] == B_PLUS {
        1
    } else {
        0
    };
    let ghost d = plus_stripped(s@);
    assert(d =~= s@.subrange(start as int, s@.len() as int));
    if s.len() == start {
        return None;
    }
    let mut acc: usize = 0;
    let mut i: usize = start;
    while i < s.len()
        invariant
            start <= i <= s@.len(),
            d == plus_stripped(s@),
            d == s@.subrange(start as int, s@.len() as int),
            acc as int == digits_val(s@.subrange(start as int, i as int)),
            all_digits(s@.subrange(start as int, i as int)),
        decreases s.len() - i,
    {
        let b = s[i];
        if !digit_byte(b) {
            proof {
                assert(d.len() == s@.len() - start);
                assert(d[i - start] == s@[i as int]);
                assert(!is_digit(d[i - start]));
                assert(!all_digits(d));
            }
            return None;
        }
        let digit: usize = (b - 48) as usize;
        if acc > (usize::MAX - digit) / 10 {
            proof {
                let p = s@.subrange(start as int, i + 1);
                assert(p.drop_last() =~= s@.subrange(start as int, i as int));
                assert(digits_val(p) == acc * 10 + digit);
                assert(acc * 10 + digit > usize::MAX) by {
                    let m = usize::MAX as int;
                    let a = acc as int;
                    let g = digit as int;
                    assert(a > (m - g) / 10);
                    assert(a * 10 + g > m) by (nonlinear_arith)
                        requires
                            a > (m - g) / 10,
                            0 <= g <= 9,
                            m > 100,
                    ;
                }
                if all_digits(d) {
                    lemma_digits_val_prefix_le(d, i + 1 - start);
                    assert(p =~= d.subrange(0, i + 1 - start));
                    assert(digits_val(d) > usize::MAX);
                }
            }
            return None;
        }
        proof {
            let m = usize::MAX as int;
            let a = acc as int;
            let g = digit as int;
            assert(a * 10 + g <= m) by (nonlinear_arith)
                requires
                    a <= (m - g) / 10,
                    0 <= g,
                    m - g >= 0,
            ;
        }
        acc = acc * 10 + digit;
        proof {
            let p = s@.subrange(start as int, i + 1);
            assert(p.drop_last() =~= s@.subrange(start as int, i as int));
        }
        i = i + 1;
    }
    proof {
        assert(s@.subrange(start as int, i as int) =~= d);
    }
    Some(acc)
}

/// What `parse_range_or_anchor` yields, over the bytes after the path token's
/// first colon (`None` when the token had no colon).
pub open spec fn spec_parse_roa(p: Option<Seq<u8>>) -> RoaView {
    let s: Seq<u8> = match p {
        Some(t) => t,
        None => Seq::empty(),
    };
    let first: Seq<u8> = match find_byte(s, B_COLON, 0) {
        Some(k) => s.subrange(0, k),
        None => s,
    };
    let second: Option<Seq<u8>> = match find_byte(s, B_COLON, 0) {
        Some(k) => Some(
            match find_byte(s, B_COLON, k + 1) {
                Some(k2) => s.subrange(k + 1, k2),
                None => s.subrange(k + 1, s.len() as int),
            },
        ),
        None => None,
    };
    if spec_parse_usize(first) is Some || first.len() == 0 {
        let start: Option<int> = match spec_parse_usize(first) {
            Some(v) => Some(if v >= 1 {
                v - 1
            } else {
                0
            }),
            None => None,
        };
        let end: Option<Option<int>> = match second {
            Some(t) => Some(spec_parse_usize(t)),
            None => None,
        };
        match (start, end) {
            (Some(a), Some(e)) => match e {
                Some(b) => RoaView::Lines(Some(a), Some(b)),
                None => RoaView::Lines(Some(a), None),
            },
            (Some(a), None) => RoaView::Lines(Some(a), Some(a + 1)),
            (None, Some(e)) => match e {
                Some(b) => RoaView::Lines(None, Some(b)),
                None => RoaView::Lines(None, None),
            },
            (None, None) => RoaView::Lines(None, None),
        }
    } else {
        RoaView::Anchor(first)
    }
}

/// Turn the selector text after a path token's first colon into a line range
/// or an anchor name.
///
/// A numeric first field is a 1-based line number and becomes a 0-based
/// start; a numeric second field is already an exclusive end.  A single
/// number selects one line; an unparseable or absent second field beside a
/// numeric first gives an open end; an empty first field beside a number
/// gives a range from the start of the file; an empty or wholly unparseable
/// selector is the full file; anything else in the first field is an anchor
/// name.
pub fn parse_range_or_anchor(parts: Option<&[u8]>) -> (r: RangeOrAnchor)
    ensures
        r@ == spec_parse_roa(
            match parts {
                Some(t) => Some(t@),
                None => None,
            },
        ),
{
    let s: &[u8] = match parts {
        Some(t) => t,
        None => &[],
    };
    proof {
        assert(s@ =~= (match parts {
            Some(t) => t@,
            None => Seq::<u8>::empty(),
        }));
    }
    let n: usize = s.len();
    let k = find_byte_from(s, B_COLON, 0);
    let first_end: usize = match k {
        Some(k) => k,
        None => n,
    };
    proof {
        lemma_find_byte(s@, B_COLON, 0);
        if k is None {
            assert(s@.subrange(0, s@.len() as int) =~= s@);
        }
    }
    let first = subvec(s, 0, first_end);
    let start: Option<usize> = match parse_usize(first.as_slice()) {
        Some(v) => Some(
            if v >= 1 {
                v - 1
            } else {
                0
            },
        ),
        None => {
            if first.len() == 0 {
                None
            } else {
                return RangeOrAnchor::Anchor(first);
            }
        },
    };
    let second: Option<Vec<u8>> = match k {
        Some(kk) => {
            let k2 = find_byte_from(s, B_COLON, kk + 1);
            proof {
                lemma_find_byte(s@, B_COLON, kk + 1);
            }
            match k2 {
                Some(k2) => Some(subvec(s, kk + 1, k2)),
                None => Some(subvec(s, kk + 1, n)),
            }
        },
        None => None,
    };
    let end: Option<Option<usize>> = match second {
        Some(t) => Some(parse_usize(t.as_slice())),
        None => None,
    };
    match (start, end) {
        (Some(a), Some(e)) => match e {
            Some(b) => RangeOrAnchor::Range(LineRange::Range(a, b)),
            None => RangeOrAnchor::Range(LineRange::RangeFrom(a)),
        },
        (Some(a), None) => {
            if a < usize::MAX {
                RangeOrAnchor::Range(LineRange::Range(a, a + 1))
            } else {
                RangeOrAnchor::Range(LineRange::RangeFrom(a))
            }
        },
        (None, Some(e)) => match e {
            Some(b) => RangeOrAnchor::Range(LineRange::RangeTo(b)),
            None => RangeOrAnchor::Range(LineRange::RangeFull),
        },
        (None, None) => RangeOrAnchor::Range(LineRange::RangeFull),
    }
}

/// What `parse_md_include_path` yields over a path token: the part before the
/// token's first colon is the file path, the rest is the selector.
pub open spec fn spec_parse_inclusion(p: Seq<u8>) -> LinkKindView {
    match find_byte(p, B_COLON, 0) {
        Some(k) => LinkKindView::Inclusion(
            p.subrange(0, k),
            spec_parse_roa(Some(p.subrange(k + 1, p.len() as int))),
        ),
        None => LinkKindView::Inclusion(p, spec_parse_roa(None)),
    }
}

/// Split an inclusion directive's path token on its first colon into the file
/// path and the selector.  A colon inside a Windows-style drive-letter path is
/// not told apart from a selector colon; that ambiguity is accepted.
pub fn parse_md_include_path(path: &[u8]) -> (r: LinkType)
    ensures
        r@ == spec_parse_inclusion(path@),
{
    proof {
        lemma_find_byte(path@, B_COLON, 0);
    }
    let n: usize = path.len();
    match find_byte_from(path, B_COLON, 0) {
        Some(k) => {
            let p = subvec(path, 0, k);
            let rest = subvec(path, k + 1, n);
            let roa = parse_range_or_anchor(Some(rest.as_slice()));
            LinkType::Inclusion(p, roa)
        },
        None => {
            let p = subvec(path, 0, path.len());
            proof {
                assert(path@.subrange(0, path@.len() as int) =~= path@);
            }
            LinkType::Inclusion(p, parse_range_or_anchor(None))
        },
    }
}

/// The first whitespace-delimited token of `s`, as its bounds, if any.
pub open spec fn first_token_bounds(s: Seq<u8>, lo: int, hi: int) -> Option<(int, int)> {
    let a = skip_ws_to(s, lo, hi);
    if a >= hi {
        None
    } else {
        Some((a, token_end(s, a, hi)))
    }
}

/// End of the non-whitespace run that starts at `from` (clamped to `hi`).
pub open spec fn token_end(s: Seq<u8>, from: int, hi: int) -> int
    decreases hi - from,
{
    if from < 0 || from >= hi || from >= s.len() {
        from
    } else if !is_ws(s[from]) {
        token_end(s, from + 1, hi)
    } else {
        from
    }
}

pub proof fn lemma_token_end(s: Seq<u8>, from: int, hi: int)
    requires
        0 <= from <= hi <= s.len(),
    ensures
        from <= token_end(s, from, hi) <= hi,
    decreases hi - from,
{
    if from < 0 || from >= hi || from >= s.len() {
    } else if !is_ws(s[from]) {
        lemma_token_end(s, from + 1, hi);
    }
}

pub fn token_end_exec(s: &[u8], from: usize, hi: usize) -> (r: usize)
    requires
        from <= hi <= s@.len(),
    ensures
        r as int == token_end(s@, from as int, hi as int),
        from <= r <= hi,
{
    proof {
        lemma_token_end(s@, from as int, hi as int);
    }
    let mut i: usize = from;
    while i < hi
        invariant
            from <= i <= hi <= s@.len(),
            token_end(s@, from as int, hi as int) == token_end(s@, i as int, hi as int),
        decreases hi - i,
    {
        if ws_byte(s[i]) {
            return i;
        }
        i = i + 1;
    }
    i
}

/// The first whitespace-delimited token of `s[lo..hi]`, if there is one.
pub fn first_token(s: &[u8], lo: usize, hi: usize) -> (r: Option<(usize, usize)>)
    requires
        lo <= hi <= s@.len(),
    ensures
        match r {
            Some((a, b)) => first_token_bounds(s@, lo as int, hi as int) == Some((
                a as int,
                b as int,
            )) && lo <= a <= b <= hi,
            None => first_token_bounds(s@, lo as int, hi as int) is None,
        },
{
    let a = skip_ws_exec(s, lo, hi);
    if a >= hi {
        None
    } else {
        let b = token_end_exec(s, a, hi);
        Some((a, b))
    }
}

} // verus!
