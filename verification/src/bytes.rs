//! Byte-sequence scanning primitives shared by the wire parser and the
//! header decoders: searching, splitting, trimming and comparison, each
//! with a specification-level counterpart.

use vstd::prelude::*;

verus! {

/// Index of the first occurrence of `b` in `s` at or after `from`.
pub open spec fn find_byte_from(s: Seq<u8>, b: u8, from: int) -> Option<int>
    decreases s.len() - from,
{
    if from < 0 || from >= s.len() {
        None
    } else if s[from] == b {
        Some(from)
    } else {
        find_byte_from(s, b, from + 1)
    }
}

/// What a successful or failed byte search says about the sequence.
pub proof fn lemma_find_byte_from(s: Seq<u8>, b: u8, from: int)
    requires
        0 <= from <= s.len(),
    ensures
        match find_byte_from(s, b, from) {
            Some(i) => from <= i < s.len() && s[i] == b && (forall|j: int|
                from <= j < i ==> s[j] != b),
            None => forall|j: int| from <= j < s.len() ==> s[j] != b,
        },
    decreases s.len() - from,
{
    if from < s.len() && s[from] != b {
        lemma_find_byte_from(s, b, from + 1);
    }
}

/// First occurrence of `b` in `s` at or after `from`.
pub fn find_byte(s: &[u8], b: u8, from: usize) -> (r: Option<usize>)
    requires
        from <= s@.len(),
    ensures
        match r {
            Some(i) => find_byte_from(s@, b, from as int) == Some(i as int)
                && from <= i < s@.len(),
            None => find_byte_from(s@, b, from as int) is None,
        },
    decreases s@.len() - from,
{
    if from >= s.len() {
        None
    } else if s[from] == b {
        Some(from)
    } else {
        find_byte(s, b, from + 1)
    }
}

/// Index of the first position where `b0` is immediately followed by `b1`.
pub open spec fn find_pair_from(s: Seq<u8>, b0: u8, b1: u8, from: int) -> Option<int>
    decreases s.len() - from,
{
    if from < 0 || from + 1 >= s.len() {
        None
    } else if s[from] == b0 && s[from + 1] == b1 {
        Some(from)
    } else {
        find_pair_from(s, b0, b1, from + 1)
    }
}

/// What a successful or failed two-byte search says about the sequence.
pub proof fn lemma_find_pair_from(s: Seq<u8>, b0: u8, b1: u8, from: int)
    requires
        0 <= from,
    ensures
        match find_pair_from(s, b0, b1, from) {
            Some(i) => from <= i && i + 1 < s.len() && s[i] == b0 && s[i + 1] == b1
                && (forall|j: int| from <= j < i ==> !(#[trigger] s[j] == b0 && s[j + 1] == b1)),
            None => forall|j: int|
                from <= j && j + 1 < s.len() ==> !(#[trigger] s[j] == b0 && s[j + 1] == b1),
        },
    decreases s.len() - from,
{
    if from + 1 < s.len() && !(s[from] == b0 && s[from + 1] == b1) {
        lemma_find_pair_from(s, b0, b1, from + 1);
    }
}

/// First position where `b0` is immediately followed by `b1`, at or after `from`.
pub fn find_pair(s: &[u8], b0: u8, b1: u8, from: usize) -> (r: Option<usize>)
    ensures
        match r {
            Some(i) => find_pair_from(s@, b0, b1, from as int) == Some(i as int)
                && from <= i && i + 1 < s@.len(),
            None => find_pair_from(s@, b0, b1, from as int) is None,
        },
    decreases s@.len() - from,
{
    if from >= s.len() || from + 1 >= s.len() {
        None
    } else if s[from] == b0 && s[from + 1] == b1 {
        Some(from)
    } else {
        find_pair(s, b0, b1, from + 1)
    }
}

/// Whether `b` occurs in `s`.
pub open spec fn has_byte(s: Seq<u8>, b: u8) -> bool {
    exists|i: int| 0 <= i < s.len() && s[i] == b
}

/// A search from the start succeeds exactly when the byte occurs.
pub proof fn lemma_find_some_iff_has(s: Seq<u8>, b: u8)
    ensures
        (find_byte_from(s, b, 0) is Some) == has_byte(s, b),
{
    lemma_find_byte_from(s, b, 0);
    match find_byte_from(s, b, 0) {
        Some(i) => {
            assert(0 <= i < s.len() && s[i] == b);
            assert(has_byte(s, b));
        },
        None => {
            assert(forall|j: int| 0 <= j < s.len() ==> s[j] != b);
        },
    }
}

/// Whether `s` begins with `p`.
pub open spec fn starts_with_spec(s: Seq<u8>, p: Seq<u8>) -> bool {
    p.len() <= s.len() && s.take(p.len() as int) == p
}

/// Views of the elements of a sequence of byte vectors.
pub open spec fn seq_views(q: Seq<Vec<u8>>) -> Seq<Seq<u8>> {
    Seq::new(q.len(), |i: int| q[i]@)
}

/// Pieces of `s` between occurrences of `sep`; there is always at least one
/// piece, and a separator at either end contributes an empty piece.
pub open spec fn split_on(s: Seq<u8>, sep: u8) -> Seq<Seq<u8>>
    decreases s.len(),
{
    if s.len() == 0 {
        seq![seq![]]
    } else if s[0] == sep {
        seq![Seq::<u8>::empty()] + split_on(s.drop_first(), sep)
    } else {
        let r = split_on(s.drop_first(), sep);
        seq![seq![s[0]] + r[0]] + r.skip(1)
    }
}

/// A split always yields at least one piece.
pub proof fn lemma_split_on_len(s: Seq<u8>, sep: u8)
    ensures
        split_on(s, sep).len() >= 1,
    decreases s.len(),
{
    if s.len() > 0 {
        lemma_split_on_len(s.drop_first(), sep);
    }
}

/// A sequence without the separator splits into itself alone.
pub proof fn lemma_split_on_whole(s: Seq<u8>, sep: u8)
    requires
        forall|i: int| 0 <= i < s.len() ==> s[i] != sep,
    ensures
        split_on(s, sep) == seq![s],
    decreases s.len(),
{
    if s.len() == 0 {
        assert(split_on(s, sep) =~~= seq![s]);
    } else {
        lemma_split_on_whole(s.drop_first(), sep);
        assert(seq![s[0]] + s.drop_first() =~= s);
        assert(split_on(s, sep) =~~= seq![s]);
    }
}

/// Splitting at the first separator peels off one piece.
pub proof fn lemma_split_on_concat(x: Seq<u8>, rest: Seq<u8>, sep: u8)
    requires
        forall|i: int| 0 <= i < x.len() ==> x[i] != sep,
    ensures
        split_on(x + seq![sep] + rest, sep) == seq![x] + split_on(rest, sep),
    decreases x.len(),
{
    let s = x + seq![sep] + rest;
    if x.len() == 0 {
        assert(s =~= seq![sep] + rest);
        assert(s[0] == sep);
        assert(s.drop_first() =~= rest);
        assert(split_on(s, sep) =~~= seq![x] + split_on(rest, sep));
    } else {
        lemma_split_on_concat(x.drop_first(), rest, sep);
        assert(s[0] == x[0] && s[0] != sep);
        assert(s.drop_first() =~= x.drop_first() + seq![sep] + rest);
        let r = split_on(s.drop_first(), sep);
        assert(r == seq![x.drop_first()] + split_on(rest, sep));
        assert(r[0] == x.drop_first());
        assert(seq![s[0]] + r[0] =~= x);
        assert(r.skip(1) =~= split_on(rest, sep));
        assert(split_on(s, sep) =~~= seq![x] + split_on(rest, sep));
    }
}

/// Split `s` into the pieces between occurrences of `sep`.
pub fn split_bytes(s: &[u8], sep: u8) -> (r: Vec<Vec<u8>>)
    ensures
        seq_views(r@) == split_on(s@, sep),
    decreases s@.len(),
{
    match find_byte(s, sep, 0) {
        None => {
            proof {
                lemma_find_byte_from(s@, sep, 0);
                lemma_split_on_whole(s@, sep);
            }
            let piece = vstd::slice::slice_to_vec(s);
            let mut r: Vec<Vec<u8>> = Vec::new();
            r.push(piece);
            assert(seq_views(r@) =~= seq![s@]);
            r
        },
        Some(i) => {
            proof {
                lemma_find_byte_from(s@, sep, 0);
                assert(s@ =~= s@.take(i as int) + seq![sep] + s@.skip(i + 1));
                lemma_split_on_concat(s@.take(i as int), s@.skip(i + 1), sep);
            }
            let n = s.len();
            let head = vstd::slice::slice_to_vec(vstd::slice::slice_subrange(s, 0, i));
            let tail = vstd::slice::slice_subrange(s, i + 1, n);
            let mut rest = split_bytes(tail, sep);
            let mut r: Vec<Vec<u8>> = Vec::new();
            r.push(head);
            r.append(&mut rest);
            assert(s@.take(i as int) =~= s@.subrange(0, i as int));
            assert(seq_views(r@) =~= seq![s@.take(i as int)] + split_on(s@.skip(i + 1), sep));
            r
        },
    }
}

/// Whether a byte counts as ASCII whitespace.
pub open spec fn is_ws(b: u8) -> bool {
    b == 32 || (9 <= b && b <= 13)
}

/// `s` without its leading whitespace.
pub open spec fn trim_start_spec(s: Seq<u8>) -> Seq<u8>
    decreases s.len(),
{
    if s.len() > 0 && is_ws(s[0]) {
        trim_start_spec(s.drop_first())
    } else {
        s
    }
}

/// `s` without its trailing whitespace.
pub open spec fn trim_end_spec(s: Seq<u8>) -> Seq<u8>
    decreases s.len(),
{
    if s.len() > 0 && is_ws(s.last()) {
        trim_end_spec(s.drop_last())
    } else {
        s
    }
}

/// `s` without leading and trailing whitespace.
pub open spec fn trim_spec(s: Seq<u8>) -> Seq<u8> {
    trim_end_spec(trim_start_spec(s))
}

fn trim_start(s: &[u8]) -> (r: &[u8])
    ensures
        r@ == trim_start_spec(s@),
    decreases s@.len(),
{
    if s.len() > 0 && (s[0] == 32 || (9 <= s[0] && s[0] <= 13)) {
        let rest = vstd::slice::slice_subrange(s, 1, s.len());
        assert(rest@ =~= s@.drop_first());
        trim_start(rest)
    } else {
        s
    }
}

fn trim_end(s: &[u8]) -> (r: &[u8])
    ensures
        r@ == trim_end_spec(s@),
    decreases s@.len(),
{
    if s.len() > 0 {
        let last = s[s.len() - 1];
        if last == 32 || (9 <= last && last <= 13) {
            let rest = vstd::slice::slice_subrange(s, 0, s.len() - 1);
            assert(rest@ =~= s@.drop_last());
            return trim_end(rest);
        }
    }
    s
}

/// `s` without leading and trailing ASCII whitespace.
pub fn trim(s: &[u8]) -> (r: &[u8])
    ensures
        r@ == trim_spec(s@),
{
    trim_end(trim_start(s))
}

/// ASCII lower-casing of a single byte.
pub open spec fn lower(b: u8) -> u8 {
    if 65 <= b && b <= 90 {
        (b + 32) as u8
    } else {
        b
    }
}

/// Whether two byte sequences are equal up to ASCII case.
pub open spec fn eq_ignore_case_spec(a: Seq<u8>, b: Seq<u8>) -> bool {
    a.len() == b.len() && (forall|i: int| 0 <= i < a.len() ==> lower(a[i]) == lower(b[i]))
}

/// Whether two byte sequences are equal up to ASCII case.
pub fn eq_ignore_case(a: &[u8], b: &[u8]) -> (r: bool)
    ensures
        r == eq_ignore_case_spec(a@, b@),
{
    if a.len() != b.len() {
        return false;
    }
    let mut i: usize = 0;
    while i < a.len()
        invariant
            i <= a@.len(),
            a@.len() == b@.len(),
            forall|j: int| 0 <= j < i ==> lower(a@[j]) == lower(b@[j]),
        decreases a@.len() - i,
    {
        let x = a[i];
        let y = b[i];
        let xl = if 65 <= x && x <= 90 { x + 32 } else { x };
        let yl = if 65 <= y && y <= 90 { y + 32 } else { y };
        if xl != yl {
            return false;
        }
        i += 1;
    }
    true
}

/// Whether a byte is a UTF-8 continuation byte.
pub open spec fn is_cont(b: u8) -> bool {
    128 <= b && b <= 191
}

/// The length of the well-formed UTF-8 sequence at the start of `s`, if the
/// start is well formed: the encoding's leading-byte ranges, with overlong
/// forms, surrogates and values past U+10FFFF excluded.
pub open spec fn utf8_seq_len(s: Seq<u8>) -> Option<int> {
    if s.len() == 0 {
        None
    } else {
        let b = s[0];
        if b <= 127 {
            Some(1)
        } else if 194 <= b && b <= 223 {
            if s.len() >= 2 && is_cont(s[1]) {
                Some(2)
            } else {
                None
            }
        } else if b == 224 {
            if s.len() >= 3 && 160 <= s[1] && s[1] <= 191 && is_cont(s[2]) {
                Some(3)
            } else {
                None
            }
        } else if (225 <= b && b <= 236) || b == 238 || b == 239 {
            if s.len() >= 3 && is_cont(s[1]) && is_cont(s[2]) {
                Some(3)
            } else {
                None
            }
        } else if b == 237 {
            if s.len() >= 3 && 128 <= s[1] && s[1] <= 159 && is_cont(s[2]) {
                Some(3)
            } else {
                None
            }
        } else if b == 240 {
            if s.len() >= 4 && 144 <= s[1] && s[1] <= 191 && is_cont(s[2]) && is_cont(s[3]) {
                Some(4)
            } else {
                None
            }
        } else if 241 <= b && b <= 243 {
            if s.len() >= 4 && is_cont(s[1]) && is_cont(s[2]) && is_cont(s[3]) {
                Some(4)
            } else {
                None
            }
        } else if b == 244 {
            if s.len() >= 4 && 128 <= s[1] && s[1] <= 143 && is_cont(s[2]) && is_cont(s[3]) {
                Some(4)
            } else {
                None
            }
        } else {
            None
        }
    }
}

/// Whether `s` is well-formed UTF-8: a run of well-formed sequences.
pub open spec fn is_utf8(s: Seq<u8>) -> bool
    decreases s.len(),
{
    if s.len() == 0 {
        true
    } else {
        match utf8_seq_len(s) {
            Some(n) => is_utf8(s.skip(n)),
            None => false,
        }
    }
}

/// Check that a byte sequence is well-formed UTF-8.
pub fn validate_utf8(s: &[u8]) -> (r: bool)
    ensures
        r == is_utf8(s@),
    decreases s@.len(),
{
    let n = s.len();
    if n == 0 {
        return true;
    }
    let b = s[0];
    let step: usize = if b <= 127 {
        1
    } else if 194 <= b && b <= 223 {
        if n >= 2 && 128 <= s[1] && s[1] <= 191 {
            2
        } else {
            return false;
        }
    } else if b == 224 {
        if n >= 3 && 160 <= s[1] && s[1] <= 191 && 128 <= s[2] && s[2] <= 191 {
            3
        } else {
            return false;
        }
    } else if (225 <= b && b <= 236) || b == 238 || b == 239 {
        if n >= 3 && 128 <= s[1] && s[1] <= 191 && 128 <= s[2] && s[2] <= 191 {
            3
        } else {
            return false;
        }
    } else if b == 237 {
        if n >= 3 && 128 <= s[1] && s[1] <= 159 && 128 <= s[2] && s[2] <= 191 {
            3
        } else {
            return false;
        }
    } else if b == 240 {
        if n >= 4 && 144 <= s[1] && s[1] <= 191 && 128 <= s[2] && s[2] <= 191 && 128 <= s[3]
            && s[3] <= 191 {
            4
        } else {
            return false;
        }
    } else if 241 <= b && b <= 243 {
        if n >= 4 && 128 <= s[1] && s[1] <= 191 && 128 <= s[2] && s[2] <= 191 && 128 <= s[3]
            && s[3] <= 191 {
            4
        } else {
            return false;
        }
    } else if b == 244 {
        if n >= 4 && 128 <= s[1] && s[1] <= 143 && 128 <= s[2] && s[2] <= 191 && 128 <= s[3]
            && s[3] <= 191 {
            4
        } else {
            return false;
        }
    } else {
        return false;
    };
    assert(utf8_seq_len(s@) == Some(step as int));
    let rest = vstd::slice::slice_subrange(s, step, n);
    assert(rest@ =~= s@.skip(step as int));
    validate_utf8(rest)
}

/// Whether two byte sequences hold the same bytes.
pub fn bytes_eq(a: &[u8], b: &[u8]) -> (r: bool)
    ensures
        r == (a@ == b@),
{
    if a.len() != b.len() {
        return false;
    }
    let mut i: usize = 0;
    while i < a.len()
        invariant
            i <= a@.len(),
            a@.len() == b@.len(),
            forall|j: int| 0 <= j < i ==> a@[j] == b@[j],
        decreases a@.len() - i,
    {
        if a[i] != b[i] {
            return false;
        }
        i += 1;
    }
    assert(a@ =~= b@);
    true
}

} // verus!
