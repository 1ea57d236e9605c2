//! Byte-string utilities shared by the handshake parser: searching,
//! splitting, trimming and ASCII case folding, each with an exact
//! specification.

use vstd::prelude::*;

verus! {

/// ASCII lower-casing of one byte.
pub open spec fn spec_lower_byte(c: u8) -> u8 {
    if 65 <= c <= 90 {
        (c + 32) as u8
    } else {
        c
    }
}

/// ASCII lower-casing of a byte string.
pub open spec fn spec_lower(s: Seq<u8>) -> Seq<u8> {
    s.map_values(|c: u8| spec_lower_byte(c))
}

/// The bytes of an ASCII character string.
pub open spec fn spec_ascii(s: Seq<char>) -> Seq<u8> {
    Seq::new(s.len(), |i: int| s[i] as u8)
}

/// A space or horizontal tab, the padding allowed around header values.
pub open spec fn spec_is_ws(c: u8) -> bool {
    c == 32 || c == 9
}

/// The string without leading spaces and tabs.
pub open spec fn spec_trim_front(s: Seq<u8>) -> Seq<u8>
    decreases s.len(),
{
    if s.len() > 0 && spec_is_ws(s[0]) {
        spec_trim_front(s.skip(1))
    } else {
        s
    }
}

/// The string without trailing spaces and tabs.
pub open spec fn spec_trim_back(s: Seq<u8>) -> Seq<u8>
    decreases s.len(),
{
    if s.len() > 0 && spec_is_ws(s.last()) {
        spec_trim_back(s.drop_last())
    } else {
        s
    }
}

/// The string without leading or trailing spaces and tabs.
pub open spec fn spec_trim(s: Seq<u8>) -> Seq<u8> {
    spec_trim_back(spec_trim_front(s))
}

/// Index of the first occurrence of byte `b`, or -1.
pub open spec fn spec_find1(s: Seq<u8>, b: u8) -> int
    decreases s.len(),
{
    if s.len() == 0 {
        -1
    } else if s[0] == b {
        0
    } else {
        let f = spec_find1(s.skip(1), b);
        if f < 0 {
            -1
        } else {
            f + 1
        }
    }
}

/// `spec_find1` finds the first occurrence: the byte stands there and
/// nowhere earlier, and -1 means the byte does not occur.
pub proof fn lemma_find1(s: Seq<u8>, b: u8)
    ensures
        spec_find1(s, b) == -1 ==> forall|i: int| 0 <= i < s.len() ==> s[i] != b,
        spec_find1(s, b) >= 0 ==> {
            let f = spec_find1(s, b);
            &&& f < s.len()
            &&& s[f] == b
            &&& forall|i: int| 0 <= i < f ==> s[i] != b
        },
    decreases s.len(),
{
    if s.len() > 0 && s[0] != b {
        lemma_find1(s.skip(1), b);
        assert(forall|i: int| 1 <= i < s.len() ==> s[i] == s.skip(1)[i - 1]);
    }
}

/// A CRLF pair stands at index `i`.
pub open spec fn spec_crlf_at(s: Seq<u8>, i: int) -> bool {
    &&& 0 <= i
    &&& i + 2 <= s.len()
    &&& s[i] == 13
    &&& s[i + 1] == 10
}

/// Index of the first CRLF pair, or -1.
pub open spec fn spec_find_crlf(s: Seq<u8>) -> int
    decreases s.len(),
{
    if s.len() < 2 {
        -1
    } else if s[0] == 13 && s[1] == 10 {
        0
    } else {
        let f = spec_find_crlf(s.skip(1));
        if f < 0 {
            -1
        } else {
            f + 1
        }
    }
}

/// `spec_find_crlf` finds the first CRLF pair, and -1 means there is none.
pub proof fn lemma_find_crlf(s: Seq<u8>)
    ensures
        spec_find_crlf(s) == -1 ==> forall|i: int| !spec_crlf_at(s, i),
        spec_find_crlf(s) >= 0 ==> {
            let f = spec_find_crlf(s);
            &&& spec_crlf_at(s, f)
            &&& forall|i: int| 0 <= i < f ==> !spec_crlf_at(s, i)
        },
    decreases s.len(),
{
    if s.len() >= 2 && !(s[0] == 13 && s[1] == 10) {
        lemma_find_crlf(s.skip(1));
        assert(forall|i: int| 1 <= i < s.len() ==> s[i] == s.skip(1)[i - 1]);
        assert(forall|i: int| spec_crlf_at(s, i) && i >= 1 ==> spec_crlf_at(s.skip(1), i - 1));
        assert(forall|i: int| spec_crlf_at(s.skip(1), i) ==> spec_crlf_at(s, i + 1));
    }
}

/// The pieces of `s` between its CRLF pairs; a string without one is a
/// single piece.
pub open spec fn spec_split_crlf(s: Seq<u8>) -> Seq<Seq<u8>>
    decreases s.len(),
{
    let f = spec_find_crlf(s);
    if 0 <= f && f + 2 <= s.len() {
        seq![s.take(f)] + spec_split_crlf(s.skip(f + 2))
    } else {
        seq![s]
    }
}

/// The pieces of `s` between occurrences of byte `b`.
pub open spec fn spec_split1(s: Seq<u8>, b: u8) -> Seq<Seq<u8>>
    decreases s.len(),
{
    let f = spec_find1(s, b);
    if 0 <= f && f + 1 <= s.len() {
        seq![s.take(f)] + spec_split1(s.skip(f + 1), b)
    } else {
        seq![s]
    }
}

/// Lower-casing a byte twice is lower-casing it once.
pub proof fn lemma_lower_idempotent(s: Seq<u8>)
    ensures
        spec_lower(spec_lower(s)) == spec_lower(s),
{
    assert(spec_lower(spec_lower(s)) =~= spec_lower(s));
}

/// Lower-casing keeps spaces and tabs in place, so trimming commutes with
/// it.
pub proof fn lemma_trim_front_lower(s: Seq<u8>)
    ensures
        spec_trim_front(spec_lower(s)) == spec_lower(spec_trim_front(s)),
    decreases s.len(),
{
    if s.len() > 0 && spec_is_ws(s[0]) {
        lemma_trim_front_lower(s.skip(1));
        assert(spec_lower(s)[0] == spec_lower_byte(s[0]));
        assert(spec_lower(s).skip(1) =~= spec_lower(s.skip(1)));
    } else if s.len() > 0 {
        assert(spec_lower(s)[0] == spec_lower_byte(s[0]));
        assert(!spec_is_ws(spec_lower(s)[0]));
    }
}

pub proof fn lemma_trim_back_lower(s: Seq<u8>)
    ensures
        spec_trim_back(spec_lower(s)) == spec_lower(spec_trim_back(s)),
    decreases s.len(),
{
    if s.len() > 0 && spec_is_ws(s.last()) {
        lemma_trim_back_lower(s.drop_last());
        assert(spec_lower(s).last() == spec_lower_byte(s.last()));
        assert(spec_lower(s).drop_last() =~= spec_lower(s.drop_last()));
    } else if s.len() > 0 {
        assert(spec_lower(s).last() == spec_lower_byte(s.last()));
        assert(!spec_is_ws(spec_lower(s).last()));
    }
}

pub proof fn lemma_trim_lower(s: Seq<u8>)
    ensures
        spec_trim(spec_lower(s)) == spec_lower(spec_trim(s)),
{
    lemma_trim_front_lower(s);
    lemma_trim_back_lower(spec_trim_front(s));
}

/// Lower-casing moves no byte onto or off a separator that is not a capital
/// letter, so the first occurrence is unmoved.
pub proof fn lemma_find1_lower(s: Seq<u8>, b: u8)
    requires
        !(65 <= b <= 90),
        !(97 <= b <= 122),
    ensures
        spec_find1(spec_lower(s), b) == spec_find1(s, b),
    decreases s.len(),
{
    if s.len() > 0 {
        assert(spec_lower(s)[0] == spec_lower_byte(s[0]));
        assert((spec_lower(s)[0] == b) == (s[0] == b));
        if s[0] != b {
            lemma_find1_lower(s.skip(1), b);
            assert(spec_lower(s).skip(1) =~= spec_lower(s.skip(1)));
        }
    } else {
        assert(spec_lower(s).len() == 0);
    }
}

/// Splitting at such a separator commutes with lower-casing: the pieces of
/// the lower-cased string are the lower-cased pieces.
pub proof fn lemma_split1_lower(s: Seq<u8>, b: u8)
    requires
        !(65 <= b <= 90),
        !(97 <= b <= 122),
    ensures
        spec_split1(spec_lower(s), b) == spec_split1(s, b).map_values(|p: Seq<u8>| spec_lower(p)),
    decreases s.len(),
{
    lemma_find1(s, b);
    lemma_find1_lower(s, b);
    let f = spec_find1(s, b);
    if 0 <= f && f + 1 <= s.len() {
        lemma_split1_lower(s.skip(f + 1), b);
        assert(spec_lower(s).take(f) =~= spec_lower(s.take(f)));
        assert(spec_lower(s).skip(f + 1) =~= spec_lower(s.skip(f + 1)));
        assert(spec_split1(spec_lower(s), b) =~= spec_split1(s, b).map_values(
            |p: Seq<u8>| spec_lower(p),
        ));
    } else {
        assert(spec_split1(spec_lower(s), b) =~= spec_split1(s, b).map_values(
            |p: Seq<u8>| spec_lower(p),
        ));
    }
}

/// Copies `buf[start..end]` out into a fresh vector.
pub fn copy_range(buf: &Vec<u8>, start: usize, end: usize) -> (r: Vec<u8>)
    requires
        start <= end <= buf@.len(),
    ensures
        r@ == buf@.subrange(start as int, end as int),
{
    let mut r: Vec<u8> = Vec::new();
    let mut i: usize = start;
    while i < end
        invariant
            start <= i <= end,
            r@ == buf@.subrange(start as int, i as int),
        decreases end - i,
    {
        r.push(buf[i]);
        assert(buf@.subrange(start as int, i + 1) =~= buf@.subrange(start as int, i as int).push(
            buf@[i as int],
        ));
        i = i + 1;
    }
    r
}

/// Two byte strings are equal.
pub fn bytes_eq(a: &Vec<u8>, b: &Vec<u8>) -> (r: bool)
    ensures
        r == (a@ == b@),
{
    if a.len() != b.len() {
        assert(a@ != b@);
        return false;
    }
    let n = a.len();
    let mut i: usize = 0;
    while i < n
        invariant
            i <= n,
            forall|j: int| 0 <= j < i ==> a@[j] == b@[j],
        decreases n - i,
    {
        if a[i] != b[i] {
            return false;
        }
        i = i + 1;
    }
    assert(a@ =~= b@);
    true
}

/// ASCII lower-casing of a byte vector.
pub fn to_lower(v: &Vec<u8>) -> (r: Vec<u8>)
    ensures
        r@ == spec_lower(v@),
{
    let n = v.len();
    let mut r: Vec<u8> = Vec::new();
    let mut i: usize = 0;
    while i < n
        invariant
            i <= n,
            r@ =~= spec_lower(v@.take(i as int)),
        decreases n - i,
    {
        let c = v[i];
        let l: u8 = if 65 <= c && c <= 90 {
            c + 32
        } else {
            c
        };
        r.push(l);
        assert(spec_lower(v@.take(i + 1)) =~= spec_lower(v@.take(i as int)).push(
            spec_lower_byte(v@[i as int]),
        ));
        i = i + 1;
    }
    assert(v@.take(n as int) =~= v@);
    r
}

/// Removes leading and trailing spaces and tabs.
pub fn trim(v: &Vec<u8>) -> (r: Vec<u8>)
    ensures
        r@ == spec_trim(v@),
{
    let n = v.len();
    assert(v@.skip(0) =~= v@);
    let mut a: usize = 0;
    while a < n && (v[a] == 32 || v[a] == 9)
        invariant
            a <= n,
            spec_trim_front(v@) == spec_trim_front(v@.skip(a as int)),
        decreases n - a,
    {
        assert(v@.skip(a as int).skip(1) =~= v@.skip(a + 1));
        a = a + 1;
    }
    proof {
        if a < n {
            assert(v@.skip(a as int)[0] == v@[a as int]);
        }
        assert(spec_trim_front(v@) == v@.skip(a as int));
    }
    assert(v@.skip(a as int).take(n - a as int) =~= v@.skip(a as int));
    let mut b: usize = n;
    while b > a && (v[b - 1] == 32 || v[b - 1] == 9)
        invariant
            a <= b <= n,
            spec_trim_back(v@.skip(a as int)) == spec_trim_back(
                v@.skip(a as int).take(b - a as int),
            ),
        decreases b,
    {
        assert(v@.skip(a as int).take(b - a as int).drop_last() =~= v@.skip(a as int).take(
            b - 1 - a as int,
        ));
        assert(v@.skip(a as int).take(b - a as int).last() == v@[b - 1]);
        b = b - 1;
    }
    proof {
        let t = v@.skip(a as int).take(b - a as int);
        if b > a {
            assert(t.last() == v@[b - 1]);
        }
        assert(spec_trim_back(v@.skip(a as int)) == t);
        assert(t =~= v@.subrange(a as int, b as int));
    }
    copy_range(v, a, b)
}

} // verus!
