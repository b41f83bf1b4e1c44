//! Byte-level text primitives: ASCII whitespace, trimming, lowercasing and
//! whitespace-separated tokenization.
use vstd::prelude::*;

verus! {

/// A byte the trimming and tokenizing steps treat as whitespace: space, tab,
/// line feed, vertical tab, form feed and carriage return.
pub open spec fn is_space(b: u8) -> bool {
    b == 32u8 || b == 9u8 || b == 10u8 || b == 11u8 || b == 12u8 || b == 13u8
}

/// The ASCII-lowercased image of one byte.
pub open spec fn lower(b: u8) -> u8 {
    if 65u8 <= b && b <= 90u8 {
        (b + 32) as u8
    } else {
        b
    }
}

/// The ASCII-lowercased image of a byte string.
pub open spec fn lower_seq(s: Seq<u8>) -> Seq<u8> {
    s.map_values(|b: u8| lower(b))
}

/// `s` without its leading whitespace.
pub open spec fn trim_front(s: Seq<u8>) -> Seq<u8>
    decreases s.len(),
{
    if s.len() > 0 && is_space(s[0]) {
        trim_front(s.drop_first())
    } else {
        s
    }
}

/// `s` without its trailing whitespace.
pub open spec fn trim_back(s: Seq<u8>) -> Seq<u8>
    decreases s.len(),
{
    if s.len() > 0 && is_space(s.last()) {
        trim_back(s.drop_last())
    } else {
        s
    }
}

/// `s` without leading and trailing whitespace.
pub open spec fn trimmed(s: Seq<u8>) -> Seq<u8> {
    trim_back(trim_front(s))
}

/// Length of the leading run of non-whitespace bytes.
pub open spec fn token_len(s: Seq<u8>) -> nat
    decreases s.len(),
{
    if s.len() == 0 || is_space(s[0]) {
        0
    } else {
        (1 + token_len(s.drop_first())) as nat
    }
}

pub proof fn lemma_token_len_le(s: Seq<u8>)
    ensures
        token_len(s) <= s.len(),
    decreases s.len(),
{
    if s.len() > 0 && !is_space(s[0]) {
        lemma_token_len_le(s.drop_first());
    }
}

/// The maximal runs of non-whitespace bytes of `s`, in order.
pub open spec fn tokens(s: Seq<u8>) -> Seq<Seq<u8>>
    decreases s.len(),
{
    if s.len() == 0 {
        Seq::empty()
    } else if is_space(s[0]) {
        tokens(s.drop_first())
    } else {
        proof {
            lemma_token_len_le(s);
        }
        seq![s.take(token_len(s) as int)] + tokens(s.skip(token_len(s) as int))
    }
}

/// Whether `b` is whitespace, decided byte by byte.
pub fn is_space_byte(b: u8) -> (r: bool)
    ensures
        r == is_space(b),
{
    b == 32 || b == 9 || b == 10 || b == 11 || b == 12 || b == 13
}

proof fn lemma_trim_front_skip(s: Seq<u8>, i: int)
    requires
        0 <= i <= s.len(),
        forall|k: int| 0 <= k < i ==> is_space(s[k]),
    ensures
        trim_front(s) == trim_front(s.skip(i)),
    decreases i,
{
    if i > 0 {
        assert(s.drop_first() =~= s.skip(1));
        lemma_trim_front_skip(s.skip(1), i - 1);
        assert(s.skip(1).skip(i - 1) =~= s.skip(i));
    } else {
        assert(s.skip(0) =~= s);
    }
}

proof fn lemma_trim_back_take(s: Seq<u8>, i: int)
    requires
        0 <= i <= s.len(),
        forall|k: int| i <= k < s.len() ==> is_space(s[k]),
    ensures
        trim_back(s) == trim_back(s.take(i)),
    decreases s.len() - i,
{
    if i < s.len() {
        assert(s.drop_last() =~= s.take(s.len() - 1));
        lemma_trim_back_take(s.take(s.len() - 1), i);
        assert(s.take(s.len() - 1).take(i) =~= s.take(i));
    } else {
        assert(s.take(i) =~= s);
    }
}

/// A copy of `v` without leading and trailing whitespace.
pub fn trim_bytes(v: &Vec<u8>) -> (r: Vec<u8>)
    ensures
        r@ == trimmed(v@),
{
    let mut start: usize = 0;
    while start < v.len() && is_space_byte(v[start])
        invariant
            start <= v.len(),
            forall|k: int| 0 <= k < start ==> is_space(v@[k]),
        decreases v.len() - start,
    {
        start += 1;
    }
    proof {
        lemma_trim_front_skip(v@, start as int);
        // the remainder starts with a non-space byte, so it is its own trim_front
        assert(trim_front(v@.skip(start as int)) == v@.skip(start as int));
    }
    let mut end: usize = v.len();
    while end > start && is_space_byte(v[end - 1])
        invariant
            start <= end <= v.len(),
            forall|k: int| end <= k < v.len() ==> is_space(v@[k]),
        decreases end,
    {
        end -= 1;
    }
    proof {
        let rest = v@.skip(start as int);
        lemma_trim_back_take(rest, end - start);
        assert(trim_back(rest.take(end - start)) == rest.take(end - start));
        assert(rest.take(end - start) =~= v@.subrange(start as int, end as int));
    }
    let mut r: Vec<u8> = Vec::new();
    let mut i: usize = start;
    while i < end
        invariant
            start <= i <= end <= v.len(),
            r@ == v@.subrange(start as int, i as int),
        decreases end - i,
    {
        r.push(v[i]);
        proof {
            assert(v@.subrange(start as int, i + 1) =~= v@.subrange(start as int, i as int).push(
                v@[i as int],
            ));
        }
        i += 1;
    }
    r
}

/// A copy of `v` with every byte ASCII-lowercased.
pub fn lower_bytes(v: &Vec<u8>) -> (r: Vec<u8>)
    ensures
        r@ == lower_seq(v@),
{
    let mut r: Vec<u8> = Vec::new();
    let mut i: usize = 0;
    while i < v.len()
        invariant
            i <= v.len(),
            r@ == lower_seq(v@.take(i as int)),
        decreases v.len() - i,
    {
        let b = v[i];
        let lb: u8 = if 65 <= b && b <= 90 {
            b + 32
        } else {
            b
        };
        r.push(lb);
        proof {
            assert(lower_seq(v@.take(i + 1)) =~= lower_seq(v@.take(i as int)).push(
                lower(v@[i as int]),
            ));
        }
        i += 1;
    }
    proof {
        assert(v@.take(v@.len() as int) =~= v@);
    }
    r
}

proof fn lemma_tokens_skip_space(s: Seq<u8>)
    requires
        s.len() > 0,
        is_space(s[0]),
    ensures
        tokens(s) == tokens(s.skip(1)),
{
    assert(s.drop_first() =~= s.skip(1));
}

proof fn lemma_token_len_run(s: Seq<u8>, j: int)
    requires
        0 <= j <= s.len(),
        forall|k: int| 0 <= k < j ==> !is_space(s[k]),
        j == s.len() || is_space(s[j]),
    ensures
        token_len(s) == j,
    decreases j,
{
    if j > 0 {
        let t = s.drop_first();
        assert(forall|k: int| 0 <= k < j - 1 ==> !is_space(t[k]));
        lemma_token_len_run(t, j - 1);
    }
}

/// A fresh `Vec<Vec<u8>>` views deeply as the empty sequence.
pub proof fn lemma_deep_view_empty(a: Vec<Vec<u8>>)
    requires
        a@ == Seq::<Vec<u8>>::empty(),
    ensures
        a.deep_view() == Seq::<Seq<u8>>::empty(),
{
    assert(a.deep_view() =~= Seq::<Seq<u8>>::empty());
}

/// Pushing on a `Vec<Vec<u8>>` pushes the element's view on the deep view.
pub proof fn lemma_deep_view_push(a: Vec<Vec<u8>>, b: Vec<Vec<u8>>, x: Vec<u8>)
    requires
        b@ == a@.push(x),
    ensures
        b.deep_view() == a.deep_view().push(x@),
{
    assert(x.deep_view() =~= x@);
    assert forall|k: int| 0 <= k < b.deep_view().len() implies b.deep_view()[k] == a.deep_view()
        .push(x@)[k] by {
        if k < a@.len() {
            assert(b@[k] == a@[k]);
        } else {
            assert(b@[k] == x);
        }
    }
    assert(b.deep_view() =~= a.deep_view().push(x@));
}

/// The whitespace-separated tokens of `v`, in order.
pub fn tokenize(v: &Vec<u8>) -> (r: Vec<Vec<u8>>)
    ensures
        r.deep_view() == tokens(v@),
{
    let mut r: Vec<Vec<u8>> = Vec::new();
    let mut i: usize = 0;
    proof {
        lemma_deep_view_empty(r);
        assert(v@.skip(0) =~= v@);
        assert(Seq::<Seq<u8>>::empty() + tokens(v@) =~= tokens(v@));
    }
    while i < v.len()
        invariant
            i <= v.len(),
            r.deep_view() + tokens(v@.skip(i as int)) == tokens(v@),
        decreases v.len() - i,
    {
        if is_space_byte(v[i]) {
            proof {
                lemma_tokens_skip_space(v@.skip(i as int));
                assert(v@.skip(i as int).skip(1) =~= v@.skip(i + 1));
            }
            i += 1;
        } else {
            let start = i;
            let mut tok: Vec<u8> = Vec::new();
            while i < v.len() && !is_space_byte(v[i])
                invariant
                    start <= i <= v.len(),
                    forall|k: int| start <= k < i ==> !is_space(v@[k]),
                    tok@ == v@.subrange(start as int, i as int),
                decreases v.len() - i,
            {
                tok.push(v[i]);
                proof {
                    assert(v@.subrange(start as int, i + 1) =~= v@.subrange(
                        start as int,
                        i as int,
                    ).push(v@[i as int]));
                }
                i += 1;
            }
            proof {
                let rest = v@.skip(start as int);
                assert(forall|k: int| 0 <= k < i - start ==> !is_space(rest[k]));
                assert(i - start == rest.len() || is_space(rest[i - start]));
                lemma_token_len_run(rest, i - start);
                assert(rest.take(i - start) =~= tok@);
                assert(rest.skip(i - start) =~= v@.skip(i as int));
                assert(tokens(rest) == seq![tok@] + tokens(v@.skip(i as int)));
                assert((r.deep_view().push(tok@)) + tokens(v@.skip(i as int)) =~= r.deep_view() + (
                seq![tok@] + tokens(v@.skip(i as int))));
            }
            let ghost old_r = r;
            let ghost tokg = tok;
            r.push(tok);
            proof {
                lemma_deep_view_push(old_r, r, tokg);
            }
        }
    }
    proof {
        assert(v@.skip(v@.len() as int) =~= Seq::<u8>::empty());
        assert(tokens(Seq::<u8>::empty()) =~= Seq::<Seq<u8>>::empty());
        assert(r.deep_view() =~= r.deep_view() + Seq::<Seq<u8>>::empty());
    }
    r
}

/// A byte-for-byte copy of `v`.
pub fn copy_bytes(v: &Vec<u8>) -> (r: Vec<u8>)
    ensures
        r@ == v@,
{
    let mut r: Vec<u8> = Vec::new();
    let mut i: usize = 0;
    while i < v.len()
        invariant
            i <= v.len(),
            r@ == v@.take(i as int),
        decreases v.len() - i,
    {
        r.push(v[i]);
        proof {
            assert(v@.take(i + 1) =~= v@.take(i as int).push(v@[i as int]));
        }
        i += 1;
    }
    proof {
        assert(v@.take(v@.len() as int) =~= v@);
    }
    r
}

/// Whether two byte strings hold the same bytes.
pub fn bytes_eq(a: &Vec<u8>, b: &Vec<u8>) -> (r: bool)
    ensures
        r == (a@ == b@),
{
    if a.len() != b.len() {
        return false;
    }
    let mut i: usize = 0;
    while i < a.len()
        invariant
            i <= a.len(),
            a@.len() == b@.len(),
            forall|k: int| 0 <= k < i ==> a@[k] == b@[k],
        decreases a.len() - i,
    {
        if a[i] != b[i] {
            return false;
        }
        i += 1;
    }
    proof {
        assert(a@ =~= b@);
    }
    true
}

} // verus!
