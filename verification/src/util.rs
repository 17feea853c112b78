use vstd::prelude::*;

verus! {

// Byte values the directive and link grammars are built from.
pub const B_BACKSLASH: u8 = 92;
pub const B_LBRACE: u8 = 123;
pub const B_RBRACE: u8 = 125;
pub const B_HASH: u8 = 35;
pub const B_NEWLINE: u8 = 10;
pub const B_COLON: u8 = 58;
pub const B_BANG: u8 = 33;
pub const B_LBRACKET: u8 = 91;
pub const B_RBRACKET: u8 = 93;
pub const B_LPAREN: u8 = 40;
pub const B_RPAREN: u8 = 41;
pub const B_DOT: u8 = 46;
pub const B_SLASH: u8 = 47;
pub const B_PLUS: u8 = 43;

/// ASCII whitespace, as the directive grammar understands it.
pub open spec fn is_ws(b: u8) -> bool {
    b == 32 || b == 9 || b == 10 || b == 13 || b == 12 || b == 11
}

pub fn ws_byte(b: u8) -> (r: bool)
    ensures
        r == is_ws(b),
{
    b == 32 || b == 9 || b == 10 || b == 13 || b == 12 || b == 11
}

pub open spec fn is_digit(b: u8) -> bool {
    48 <= b <= 57
}

pub fn digit_byte(b: u8) -> (r: bool)
    ensures
        r == is_digit(b),
{
    48 <= b && b <= 57
}

/// A byte allowed in a directive identifier: a letter, a digit or an underscore.
pub open spec fn is_ident_byte(b: u8) -> bool {
    (48 <= b <= 57) || (65 <= b <= 90) || (97 <= b <= 122) || b == 95
}

pub fn ident_byte(b: u8) -> (r: bool)
    ensures
        r == is_ident_byte(b),
{
    (48 <= b && b <= 57) || (65 <= b && b <= 90) || (97 <= b && b <= 122) || b == 95
}

/// First position at or after `from` holding `b`, if any.
pub open spec fn find_byte(s: Seq<u8>, b: u8, from: int) -> Option<int>
    decreases s.len() - from,
{
    if from < 0 || from >= s.len() {
        None
    } else if s[from] == b {
        Some(from)
    } else {
        find_byte(s, b, from + 1)
    }
}

pub proof fn lemma_find_byte(s: Seq<u8>, b: u8, from: int)
    requires
        0 <= from,
    ensures
        match find_byte(s, b, from) {
            Some(k) => from <= k < s.len() && s[k] == b && (forall|t: int|
                from <= t < k ==> s[t] != b),
            None => forall|t: int| from <= t < s.len() ==> s[t] != b,
        },
    decreases s.len() - from,
{
    if from >= s.len() {
    } else if s[from] == b {
    } else {
        lemma_find_byte(s, b, from + 1);
    }
}

pub fn find_byte_from(s: &[u8], b: u8, from: usize) -> (r: Option<usize>)
    ensures
        match r {
            Some(k) => find_byte(s@, b, from as int) == Some(k as int) && from <= k < s@.len(),
            None => find_byte(s@, b, from as int) is None,
        },
{
    proof {
        lemma_find_byte(s@, b, from as int);
    }
    let mut i: usize = from;
    while i < s.len()
        invariant
            from <= i,
            find_byte(s@, b, from as int) == find_byte(s@, b, i as int),
        decreases s.len() - i,
    {
        if s[i] == b {
            return Some(i);
        }
        i = i + 1;
    }
    None
}

/// First position at or after `from` (clamped to `hi`) holding a non-whitespace byte.
pub open spec fn skip_ws_to(s: Seq<u8>, from: int, hi: int) -> int
    decreases hi - from,
{
    if from < 0 || from >= hi || from >= s.len() {
        from
    } else if is_ws(s[from]) {
        skip_ws_to(s, from + 1, hi)
    } else {
        from
    }
}

pub proof fn lemma_skip_ws_to(s: Seq<u8>, from: int, hi: int)
    requires
        0 <= from <= hi <= s.len(),
    ensures
        from <= skip_ws_to(s, from, hi) <= hi,
        forall|t: int| from <= t < skip_ws_to(s, from, hi) ==> is_ws(s[t]),
        skip_ws_to(s, from, hi) < hi ==> !is_ws(s[skip_ws_to(s, from, hi)]),
    decreases hi - from,
{
    if from < 0 || from >= hi || from >= s.len() {
    } else if is_ws(s[from]) {
        lemma_skip_ws_to(s, from + 1, hi);
    }
}

pub fn skip_ws_exec(s: &[u8], from: usize, hi: usize) -> (r: usize)
    requires
        from <= hi <= s@.len(),
    ensures
        r as int == skip_ws_to(s@, from as int, hi as int),
        from <= r <= hi,
    {
    proof {
        lemma_skip_ws_to(s@, from as int, hi as int);
    }
    let mut i: usize = from;
    while i < hi
        invariant
            from <= i <= hi <= s@.len(),
            skip_ws_to(s@, from as int, hi as int) == skip_ws_to(s@, i as int, hi as int),
        decreases hi - i,
    {
        if !ws_byte(s[i]) {
            return i;
        }
        i = i + 1;
    }
    i
}

/// End of the identifier run that starts at `from`: the first position that is
/// not an identifier byte (clamped to the length).
pub open spec fn ident_end(s: Seq<u8>, from: int) -> int
    decreases s.len() - from,
{
    if from < 0 || from >= s.len() {
        from
    } else if is_ident_byte(s[from]) {
        ident_end(s, from + 1)
    } else {
        from
    }
}

pub proof fn lemma_ident_end(s: Seq<u8>, from: int)
    requires
        0 <= from <= s.len(),
    ensures
        from <= ident_end(s, from) <= s.len(),
        forall|t: int| from <= t < ident_end(s, from) ==> is_ident_byte(s[t]),
        ident_end(s, from) < s.len() ==> !is_ident_byte(s[ident_end(s, from)]),
    decreases s.len() - from,
{
    if from < 0 || from >= s.len() {
    } else if is_ident_byte(s[from]) {
        lemma_ident_end(s, from + 1);
    }
}

pub fn ident_end_exec(s: &[u8], from: usize) -> (r: usize)
    requires
        from <= s@.len(),
    ensures
        r as int == ident_end(s@, from as int),
        from <= r <= s@.len(),
{
    proof {
        lemma_ident_end(s@, from as int);
    }
    let mut i: usize = from;
    while i < s.len()
        invariant
            from <= i <= s@.len(),
            ident_end(s@, from as int) == ident_end(s@, i as int),
        decreases s.len() - i,
    {
        if !ident_byte(s[i]) {
            return i;
        }
        i = i + 1;
    }
    i
}

/// Copy `s[from..to]` onto the end of `out`.
pub fn push_range(out: &mut Vec<u8>, s: &[u8], from: usize, to: usize)
    requires
        from <= to <= s@.len(),
    ensures
        final(out)@ == old(out)@ + s@.subrange(from as int, to as int),
{
    let mut i: usize = from;
    while i < to
        invariant
            from <= i <= to <= s@.len(),
            out@ == old(out)@ + s@.subrange(from as int, i as int),
        decreases to - i,
    {
        out.push(s[i]);
        proof {
            assert(old(out)@ + s@.subrange(from as int, i + 1) == (old(out)@ + s@.subrange(
                from as int,
                i as int,
            )).push(s@[i as int]));
        }
        i = i + 1;
    }
    proof {
        assert(s@.subrange(from as int, to as int) == s@.subrange(from as int, i as int));
    }
}

/// The bytes `s[from..to]` as a fresh vector.
pub fn subvec(s: &[u8], from: usize, to: usize) -> (v: Vec<u8>)
    requires
        from <= to <= s@.len(),
    ensures
        v@ == s@.subrange(from as int, to as int),
{
    let mut v: Vec<u8> = Vec::new();
    push_range(&mut v, s, from, to);
    v
}

/// The views of a sequence of byte vectors.
pub open spec fn seq_views(v: Seq<Vec<u8>>) -> Seq<Seq<u8>> {
    v.map_values(|c: Vec<u8>| c@)
}

/// Byte-for-byte equality of two slices.
pub fn bytes_eq(a: &[u8], b: &[u8]) -> (r: bool)
    ensures
        r == (a@ == b@),
{
    if a.len() != b.len() {
        proof {
            assert(a@ != b@);
        }
        return false;
    }
    let mut i: usize = 0;
    while i < a.len()
        invariant
            i <= a@.len(),
            a@.len() == b@.len(),
            forall|t: int| 0 <= t < i ==> a@[t] == b@[t],
        decreases a.len() - i,
    {
        if a[i] != b[i] {
            proof {
                assert(a@ != b@);
            }
            return false;
        }
        i = i + 1;
    }
    proof {
        assert(a@ =~= b@);
    }
    true
}

} // verus!
