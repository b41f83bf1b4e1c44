//! Scoring an entry against search terms: the number of distinct,
//! case-insensitive search terms that appear among the entry's distinct tags.
use vstd::prelude::*;
use vstd::seq_lib::seq_to_set_is_finite;
use vstd::set::group_set_axioms;
use crate::text::{lower_seq, trimmed, tokens, trim_bytes, lower_bytes, tokenize, bytes_eq,
    copy_bytes, lemma_deep_view_empty, lemma_deep_view_push};

verus! {

/// The tag-line content proper: one leading `[` and one trailing `]`, when
/// present, stripped.
pub open spec fn strip_brackets(t: Seq<u8>) -> Seq<u8> {
    let a = if t.len() > 0 && t[0] == 91u8 {
        t.drop_first()
    } else {
        t
    };
    if a.len() > 0 && a.last() == 93u8 {
        a.drop_last()
    } else {
        a
    }
}

/// The lowercased tag tokens of a tag line, in order, duplicates included:
/// the line is trimmed, its brackets stripped, the rest lowercased and split
/// on whitespace.
pub open spec fn tag_tokens(line: Seq<u8>) -> Seq<Seq<u8>> {
    tokens(lower_seq(strip_brackets(trimmed(line))))
}

/// The tag set used in scoring: the distinct lowercased tags of the line.
pub open spec fn tag_set(line: Seq<u8>) -> Set<Seq<u8>> {
    tag_tokens(line).to_set()
}

/// The term set used in scoring: the distinct lowercased search terms.
pub open spec fn term_set(args: Seq<Seq<u8>>) -> Set<Seq<u8>> {
    args.map_values(|a: Seq<u8>| lower_seq(a)).to_set()
}

/// The score of a tag line against search terms: the size of the
/// intersection of the term set and the tag set.
pub open spec fn spec_score(args: Seq<Seq<u8>>, tags_line: Seq<u8>) -> nat {
    term_set(args).intersect(tag_set(tags_line)).len()
}

/// Pushing an element on a sequence inserts it into the sequence's set.
pub proof fn lemma_to_set_push(s: Seq<Seq<u8>>, e: Seq<u8>)
    ensures
        s.push(e).to_set() == s.to_set().insert(e),
{
    broadcast use group_set_axioms;

    assert forall|x: Seq<u8>| s.push(e).to_set().contains(x) implies s.to_set().insert(e).contains(
        x,
    ) by {
        let i = choose|i: int| 0 <= i < s.push(e).len() && s.push(e)[i] == x;
        if i < s.len() {
            assert(s[i] == x);
        }
    }
    assert forall|x: Seq<u8>| s.to_set().insert(e).contains(x) implies s.push(e).to_set().contains(
        x,
    ) by {
        if x == e {
            assert(s.push(e)[s.len() as int] == x);
        } else {
            let i = choose|i: int| 0 <= i < s.len() && s[i] == x;
            assert(s.push(e)[i] == x);
        }
    }
    assert(s.push(e).to_set() =~= s.to_set().insert(e));
}

/// Whether some line of `v` holds the bytes of `x`.
pub fn contains_bytes(v: &Vec<Vec<u8>>, x: &Vec<u8>) -> (r: bool)
    ensures
        r == v.deep_view().contains(x@),
{
    let mut j: usize = 0;
    while j < v.len()
        invariant
            j <= v@.len(),
            forall|k: int| 0 <= k < j ==> v.deep_view()[k] != x@,
        decreases v.len() - j,
    {
        proof {
            assert(v.deep_view()[j as int] =~= v@[j as int]@);
        }
        if bytes_eq(&v[j], x) {
            return true;
        }
        j += 1;
    }
    proof {
        if v.deep_view().contains(x@) {
            let k = choose|k: int| 0 <= k < v.deep_view().len() && v.deep_view()[k] == x@;
            assert(v.deep_view()[k] != x@);
        }
    }
    false
}

/// A copy of `v` with later repetitions of a line removed: no duplicates,
/// same set of lines.
pub fn dedup_bytes(v: &Vec<Vec<u8>>) -> (r: Vec<Vec<u8>>)
    ensures
        r.deep_view().no_duplicates(),
        r.deep_view().to_set() == v.deep_view().to_set(),
{
    let ghost dv = v.deep_view();
    let mut r: Vec<Vec<u8>> = Vec::new();
    let mut k: usize = 0;
    proof {
        lemma_deep_view_empty(r);
        assert(r.deep_view().to_set() =~= dv.take(0).to_set());
    }
    while k < v.len()
        invariant
            k <= v@.len(),
            dv == v.deep_view(),
            r.deep_view().no_duplicates(),
            r.deep_view().to_set() == dv.take(k as int).to_set(),
        decreases v.len() - k,
    {
        let x = copy_bytes(&v[k]);
        let ghost e = dv[k as int];
        proof {
            assert(e =~= v@[k as int]@);
            assert(dv.take(k + 1) =~= dv.take(k as int).push(e));
            lemma_to_set_push(dv.take(k as int), e);
        }
        let dup = contains_bytes(&r, &x);
        if !dup {
            let ghost old_r = r;
            let ghost xg = x;
            r.push(x);
            proof {
                lemma_deep_view_push(old_r, r, xg);
                assert(forall|i: int|
                    0 <= i < old_r.deep_view().len() ==> old_r.deep_view()[i] != e);
                assert(r.deep_view().no_duplicates());
                lemma_to_set_push(old_r.deep_view(), e);
            }
        } else {
            proof {
                broadcast use group_set_axioms;

                assert(r.deep_view().to_set().contains(e));
                assert(dv.take(k as int).to_set().insert(e) =~= dv.take(k as int).to_set());
            }
        }
        k += 1;
    }
    proof {
        assert(dv.take(dv.len() as int) =~= dv);
    }
    r
}

/// Scores a tag line against search terms. The tag line is trimmed, its
/// brackets stripped, and its whitespace-separated tokens lowercased and
/// deduplicated; the terms are lowercased and deduplicated; the score is the
/// number of distinct terms among the distinct tags. Repetition on either
/// side and letter case on either side cannot change the result.
pub fn score_entry(args: &Vec<Vec<u8>>, tags: &Vec<u8>) -> (score: usize)
    ensures
        score == spec_score(args.deep_view(), tags@),
{
    broadcast use seq_to_set_is_finite, group_set_axioms;

    // tag side: trim, strip one bracket on each end, lowercase, tokenize,
    // deduplicate
    let t = trim_bytes(tags);
    let mut inner = t;
    if inner.len() > 0 && inner[0] == 91 {
        let ghost before = inner@;
        inner.remove(0);
        proof {
            assert(before.remove(0) =~= before.drop_first());
        }
    }
    if inner.len() > 0 && inner[inner.len() - 1] == 93 {
        let ghost before = inner@;
        inner.pop();
        proof {
            assert(before.drop_last() =~= inner@);
        }
    }
    proof {
        assert(inner@ == strip_brackets(trimmed(tags@)));
    }
    let low = lower_bytes(&inner);
    let toks = tokenize(&low);
    let dtags = dedup_bytes(&toks);
    proof {
        assert(dtags.deep_view().to_set() == tag_set(tags@));
    }

    // term side: lowercase, deduplicate
    let ghost av = args.deep_view();
    let ghost lowered = av.map_values(|a: Seq<u8>| lower_seq(a));
    let mut largs: Vec<Vec<u8>> = Vec::new();
    let mut k: usize = 0;
    proof {
        lemma_deep_view_empty(largs);
        assert(largs.deep_view() =~= lowered.take(0));
    }
    while k < args.len()
        invariant
            k <= args@.len(),
            av == args.deep_view(),
            lowered == av.map_values(|a: Seq<u8>| lower_seq(a)),
            largs.deep_view() == lowered.take(k as int),
        decreases args.len() - k,
    {
        let la = lower_bytes(&args[k]);
        proof {
            assert(av[k as int] =~= args@[k as int]@);
            assert(la@ == lowered[k as int]);
        }
        let ghost old_l = largs;
        let ghost lag = la;
        largs.push(la);
        proof {
            lemma_deep_view_push(old_l, largs, lag);
            assert(lowered.take(k + 1) =~= lowered.take(k as int).push(lowered[k as int]));
        }
        k += 1;
    }
    proof {
        assert(lowered.take(av.len() as int) =~= lowered);
    }
    let dargs = dedup_bytes(&largs);
    proof {
        assert(dargs.deep_view().to_set() == term_set(av));
    }

    // count the distinct terms that are tags
    let ghost tset = tag_set(tags@);
    let ghost da = dargs.deep_view();
    let mut score: usize = 0;
    let mut j: usize = 0;
    proof {
        assert(da.take(0).to_set() =~= Set::<Seq<u8>>::empty());
        assert(da.take(0).to_set().intersect(tset) =~= Set::<Seq<u8>>::empty());
    }
    while j < dargs.len()
        invariant
            j <= dargs@.len(),
            da == dargs.deep_view(),
            tset == tag_set(tags@),
            dtags.deep_view().to_set() == tset,
            da.no_duplicates(),
            score <= j,
            score == da.take(j as int).to_set().intersect(tset).len(),
        decreases dargs.len() - j,
    {
        let ghost e = da[j as int];
        let ghost aset = da.take(j as int).to_set();
        proof {
            assert(da.take(j + 1) =~= da.take(j as int).push(e));
            lemma_to_set_push(da.take(j as int), e);
            assert(!aset.contains(e)) by {
                if aset.contains(e) {
                    let i = choose|i: int| 0 <= i < j && da.take(j as int)[i] == e;
                    assert(da[i] == da[j as int]);
                }
            }
        }
        let hit = contains_bytes(&dtags, &dargs[j]);
        proof {
            assert(dargs@[j as int]@ =~= e);
            assert(hit == tset.contains(e));
            if hit {
                assert(aset.insert(e).intersect(tset) =~= aset.intersect(tset).insert(e));
                assert(aset.intersect(tset).finite());
                assert(!aset.intersect(tset).contains(e));
            } else {
                assert(aset.insert(e).intersect(tset) =~= aset.intersect(tset));
            }
        }
        if hit {
            score += 1;
        }
        j += 1;
    }
    proof {
        assert(da.take(da.len() as int) =~= da);
    }
    score
}

/// Repeating a tag token that the line already holds leaves the tag set, and
/// with it every score, unchanged: duplicate tags count once.
pub proof fn lemma_duplicate_tag_token_no_effect(
    args: Seq<Seq<u8>>,
    line1: Seq<u8>,
    line2: Seq<u8>,
    t: Seq<u8>,
)
    requires
        tag_tokens(line2) == tag_tokens(line1).push(t),
        tag_tokens(line1).contains(t),
    ensures
        spec_score(args, line2) == spec_score(args, line1),
{
    broadcast use group_set_axioms;

    lemma_to_set_push(tag_tokens(line1), t);
    assert(tag_set(line1).contains(t));
    assert(tag_set(line2) =~= tag_set(line1));
}

/// Repeating a search term that the list already holds, in any letter case,
/// leaves the term set, and with it every score, unchanged: duplicate terms
/// count once.
pub proof fn lemma_duplicate_term_no_effect(args: Seq<Seq<u8>>, extra: Seq<u8>, line: Seq<u8>)
    requires
        args.map_values(|a: Seq<u8>| lower_seq(a)).contains(lower_seq(extra)),
    ensures
        spec_score(args.push(extra), line) == spec_score(args, line),
{
    broadcast use group_set_axioms;

    let f = |a: Seq<u8>| lower_seq(a);
    assert(args.push(extra).map_values(f) =~= args.map_values(f).push(lower_seq(extra)));
    lemma_to_set_push(args.map_values(f), lower_seq(extra));
    assert(term_set(args).contains(lower_seq(extra)));
    assert(term_set(args.push(extra)) =~= term_set(args));
}

/// Scoring is case-insensitive in the search terms: two term lists equal up
/// to letter case score every tag line identically.
pub proof fn lemma_score_case_insensitive(args1: Seq<Seq<u8>>, args2: Seq<Seq<u8>>, line: Seq<u8>)
    requires
        args1.len() == args2.len(),
        forall|i: int| 0 <= i < args1.len() ==> lower_seq(#[trigger] args1[i]) == lower_seq(args2[i]),
    ensures
        spec_score(args1, line) == spec_score(args2, line),
{
    let f = |a: Seq<u8>| lower_seq(a);
    assert(args1.map_values(f) =~= args2.map_values(f));
}

} // verus!
