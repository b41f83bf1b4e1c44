//! Splitting raw file bytes into physical lines, and joining lines back into
//! text with line feeds.
use vstd::prelude::*;
use crate::text::{lemma_deep_view_empty, lemma_deep_view_push};

verus! {

/// The segments of `s` between line feeds, keeping a final empty segment when
/// `s` ends in one: `spec_split` of "a\nb" is ["a","b"], of "a\n" is ["a",""],
/// of "" is [""].
pub open spec fn spec_split(s: Seq<u8>) -> Seq<Seq<u8>>
    decreases s.len(),
{
    if s.len() == 0 {
        seq![Seq::<u8>::empty()]
    } else if s.last() == 10u8 {
        spec_split(s.drop_last()).push(Seq::<u8>::empty())
    } else {
        let r = spec_split(s.drop_last());
        r.update(r.len() - 1, r.last().push(s.last()))
    }
}

/// The physical lines of a file: as `spec_split`, except that a trailing line
/// feed closes the last line instead of opening an empty one, and an empty
/// file is a single empty line.
pub open spec fn spec_lines(s: Seq<u8>) -> Seq<Seq<u8>> {
    if s.len() > 0 && s.last() == 10u8 {
        spec_split(s).drop_last()
    } else {
        spec_split(s)
    }
}

/// The lines of `ls` joined with a single line feed between neighbours.
pub open spec fn spec_join(ls: Seq<Seq<u8>>) -> Seq<u8>
    decreases ls.len(),
{
    if ls.len() == 0 {
        Seq::empty()
    } else if ls.len() == 1 {
        ls[0]
    } else {
        spec_join(ls.drop_last()) + seq![10u8] + ls.last()
    }
}

/// Length of the first line of `s`: the bytes before its first line feed.
pub open spec fn line_len(s: Seq<u8>) -> nat
    decreases s.len(),
{
    if s.len() == 0 || s[0] == 10u8 {
        0
    } else {
        (1 + line_len(s.drop_first())) as nat
    }
}

/// The first line of `s`.
pub open spec fn first_line(s: Seq<u8>) -> Seq<u8> {
    s.take(line_len(s) as int)
}

pub proof fn lemma_split_len(s: Seq<u8>)
    ensures
        spec_split(s).len() >= 1,
    decreases s.len(),
{
    if s.len() > 0 {
        lemma_split_len(s.drop_last());
    }
}

/// No line the splitter produces contains a line feed.
pub proof fn lemma_split_no_nl_inside(s: Seq<u8>)
    ensures
        forall|k: int|
            0 <= k < spec_split(s).len() ==> !(#[trigger] spec_split(s)[k]).contains(10u8),
    decreases s.len(),
{
    if s.len() == 0 {
        assert(spec_split(s) == seq![Seq::<u8>::empty()]);
        assert(!Seq::<u8>::empty().contains(10u8));
    } else if s.last() == 10u8 {
        lemma_split_no_nl_inside(s.drop_last());
        let r = spec_split(s.drop_last());
        assert(spec_split(s) == r.push(Seq::<u8>::empty()));
        assert(!Seq::<u8>::empty().contains(10u8));
        assert forall|k: int| 0 <= k < spec_split(s).len() implies !(#[trigger] spec_split(s)[
        k]).contains(10u8) by {
            if k < r.len() {
                assert(spec_split(s)[k] == r[k]);
            }
        }
    } else {
        lemma_split_no_nl_inside(s.drop_last());
        lemma_split_len(s.drop_last());
        let r = spec_split(s.drop_last());
        let ext = r.last().push(s.last());
        assert(!r.last().contains(10u8));
        assert forall|j: int| 0 <= j < ext.len() implies ext[j] != 10u8 by {
            if j < r.last().len() {
                assert(r.last()[j] != 10u8);
            }
        }
        assert(!ext.contains(10u8));
        assert(spec_split(s) == r.update(r.len() - 1, ext));
        assert forall|k: int| 0 <= k < spec_split(s).len() implies !(#[trigger] spec_split(s)[
        k]).contains(10u8) by {
            if k < r.len() - 1 {
                assert(spec_split(s)[k] == r[k]);
            } else {
                assert(spec_split(s)[k] == ext);
            }
        }
    }
}

/// No physical line contains a line feed.
pub proof fn lemma_lines_no_nl_inside(s: Seq<u8>)
    ensures
        forall|k: int|
            0 <= k < spec_lines(s).len() ==> !(#[trigger] spec_lines(s)[k]).contains(10u8),
{
    lemma_split_no_nl_inside(s);
}

/// Splitting a line-feed-free byte string yields just that string.
pub proof fn lemma_split_no_nl(s: Seq<u8>)
    requires
        !s.contains(10u8),
    ensures
        spec_split(s) == seq![s],
    decreases s.len(),
{
    if s.len() == 0 {
        assert(s =~= Seq::<u8>::empty());
        assert(spec_split(s) =~= seq![s]);
    } else {
        assert(s.last() != 10u8);
        assert(!s.drop_last().contains(10u8)) by {
            if s.drop_last().contains(10u8) {
                let j = choose|j: int| 0 <= j < s.drop_last().len() && s.drop_last()[j] == 10u8;
                assert(s[j] == 10u8);
            }
        }
        lemma_split_no_nl(s.drop_last());
        let r = seq![s.drop_last()];
        assert(spec_split(s) == r.update(0, r.last().push(s.last())));
        assert(r.last().push(s.last()) =~= s);
        assert(spec_split(s) =~= seq![s]);
    }
}

/// Appending line-feed-free bytes extends the last split segment.
pub proof fn lemma_split_append(a: Seq<u8>, x: Seq<u8>)
    requires
        !x.contains(10u8),
    ensures
        spec_split(a + x) == spec_split(a).update(
            spec_split(a).len() - 1,
            spec_split(a).last() + x,
        ),
    decreases x.len(),
{
    lemma_split_len(a);
    let r = spec_split(a);
    if x.len() == 0 {
        assert(a + x =~= a);
        assert(r.last() + x =~= r.last());
        assert(r.update(r.len() - 1, r.last() + x) =~= r);
    } else {
        assert(x.last() != 10u8);
        assert(!x.drop_last().contains(10u8)) by {
            if x.drop_last().contains(10u8) {
                let j = choose|j: int| 0 <= j < x.drop_last().len() && x.drop_last()[j] == 10u8;
                assert(x[j] == 10u8);
            }
        }
        lemma_split_append(a, x.drop_last());
        let prev = spec_split(a + x.drop_last());
        assert((a + x).drop_last() =~= a + x.drop_last());
        assert((a + x).last() == x.last());
        assert(spec_split(a + x) == prev.update(prev.len() - 1, prev.last().push(x.last())));
        assert(prev.len() == r.len());
        assert(prev.last() == r.last() + x.drop_last());
        assert((r.last() + x.drop_last()).push(x.last()) =~= r.last() + x);
        assert(prev.update(prev.len() - 1, prev.last().push(x.last())) =~= r.update(
            r.len() - 1,
            r.last() + x,
        ));
    }
}

/// Joining the split of `s` gives back `s` exactly.
pub proof fn lemma_join_split(s: Seq<u8>)
    ensures
        spec_join(spec_split(s)) == s,
    decreases s.len(),
{
    if s.len() == 0 {
        assert(spec_join(spec_split(s)) =~= s);
    } else if s.last() == 10u8 {
        lemma_join_split(s.drop_last());
        lemma_split_len(s.drop_last());
        let r = spec_split(s.drop_last());
        let w = r.push(Seq::<u8>::empty());
        assert(w.drop_last() =~= r);
        if r.len() == 0 {
        } else {
            assert(spec_join(w) == spec_join(r) + seq![10u8] + Seq::<u8>::empty());
            assert(spec_join(r) + seq![10u8] + Seq::<u8>::empty() =~= s);
        }
    } else {
        lemma_join_split(s.drop_last());
        lemma_split_len(s.drop_last());
        let r = spec_split(s.drop_last());
        let c = s.last();
        let w = r.update(r.len() - 1, r.last().push(c));
        if r.len() == 1 {
            assert(spec_join(w) == w[0]);
            assert(spec_join(r) == r[0]);
            assert(w[0] == r[0].push(c));
            assert(r[0].push(c) =~= s);
        } else {
            assert(w.drop_last() =~= r.drop_last());
            assert(spec_join(w) == spec_join(r.drop_last()) + seq![10u8] + r.last().push(c));
            assert(spec_join(r) == spec_join(r.drop_last()) + seq![10u8] + r.last());
            assert(spec_join(r.drop_last()) + seq![10u8] + r.last().push(c) =~= (spec_join(
                r.drop_last(),
            ) + seq![10u8] + r.last()).push(c));
            assert(spec_join(r).push(c) =~= s);
        }
    }
}

/// Re-joining the physical lines of `s` reproduces `s`, up to the one
/// trailing line feed the splitter absorbs. Nothing is lost or reordered.
pub proof fn lemma_join_of_lines(s: Seq<u8>)
    ensures
        spec_join(spec_lines(s)) == if s.len() > 0 && s.last() == 10u8 {
            s.drop_last()
        } else {
            s
        },
{
    if s.len() > 0 && s.last() == 10u8 {
        assert(spec_lines(s) == spec_split(s).drop_last());
        assert(spec_split(s).drop_last() =~= spec_split(s.drop_last()));
        lemma_join_split(s.drop_last());
    } else {
        lemma_join_split(s);
    }
}

/// Splitting the join of line-feed-free lines gives the lines back.
pub proof fn lemma_split_of_join(ls: Seq<Seq<u8>>)
    requires
        ls.len() > 0,
        forall|k: int| 0 <= k < ls.len() ==> !(#[trigger] ls[k]).contains(10u8),
    ensures
        spec_split(spec_join(ls)) == ls,
    decreases ls.len(),
{
    if ls.len() == 1 {
        lemma_split_no_nl(ls[0]);
        assert(seq![ls[0]] =~= ls);
    } else {
        let init = ls.drop_last();
        let x = ls.last();
        lemma_split_of_join(init);
        let j = spec_join(init);
        assert(spec_join(ls) == j + seq![10u8] + x);
        assert((j + seq![10u8]).drop_last() =~= j);
        assert((j + seq![10u8]).last() == 10u8);
        assert((j + seq![10u8]).len() > 0);
        assert(spec_split(j + seq![10u8]) == spec_split(j).push(Seq::<u8>::empty()));
        lemma_split_append(j + seq![10u8], x);
        let w = spec_split(j).push(Seq::<u8>::empty());
        assert(j + seq![10u8] + x =~= (j + seq![10u8]) + x);
        assert(spec_split(spec_join(ls)) == w.update(w.len() - 1, w.last() + x));
        assert(w.last() + x =~= x);
        assert(w.update(w.len() - 1, x) =~= init.push(x));
        assert(init.push(x) =~= ls);
    }
}

/// Splitting the join of a body of line-feed-free lines reproduces the body
/// verbatim, as long as the last line is not empty (a trailing empty line
/// would end the join in a line feed, which the splitter absorbs).
pub proof fn lemma_lines_of_join(ls: Seq<Seq<u8>>)
    requires
        ls.len() > 0,
        forall|k: int| 0 <= k < ls.len() ==> !(#[trigger] ls[k]).contains(10u8),
        ls.last().len() > 0 || ls.len() == 1,
    ensures
        spec_lines(spec_join(ls)) == ls,
{
    lemma_split_of_join(ls);
    let s = spec_join(ls);
    if s.len() > 0 {
        if ls.len() == 1 {
            assert(s == ls[0]);
            assert(s.last() != 10u8) by {
                if s.last() == 10u8 {
                    assert(ls[0].contains(10u8));
                }
            }
        } else {
            assert(s == spec_join(ls.drop_last()) + seq![10u8] + ls.last());
            assert(s.last() == ls.last().last());
            assert(s.last() != 10u8) by {
                if s.last() == 10u8 {
                    assert(ls.last().contains(10u8));
                }
            }
        }
    }
}

/// The join of lines starts with the first line, followed either by nothing
/// or by a line feed.
pub proof fn lemma_join_front(ls: Seq<Seq<u8>>)
    requires
        ls.len() > 0,
    ensures
        ls.len() == 1 ==> spec_join(ls) == ls[0],
        ls.len() > 1 ==> spec_join(ls) == ls[0] + seq![10u8] + spec_join(ls.drop_first()),
    decreases ls.len(),
{
    if ls.len() > 1 {
        let init = ls.drop_last();
        lemma_join_front(init);
        if ls.len() == 2 {
            assert(spec_join(ls) == spec_join(init) + seq![10u8] + ls.last());
            assert(spec_join(init) == ls[0]);
            assert(ls.drop_first() =~= seq![ls.last()]);
            assert(spec_join(seq![ls.last()]) == ls.last());
        } else {
            assert(spec_join(ls) == spec_join(init) + seq![10u8] + ls.last());
            assert(spec_join(init) == init[0] + seq![10u8] + spec_join(init.drop_first()));
            assert(init.drop_first() =~= ls.drop_first().drop_last());
            assert(ls.drop_first().len() > 1);
            assert(spec_join(ls.drop_first()) == spec_join(ls.drop_first().drop_last())
                + seq![10u8] + ls.drop_first().last());
            assert(ls.drop_first().last() == ls.last());
            assert(spec_join(init) + seq![10u8] + ls.last() =~= ls[0] + seq![10u8] + (spec_join(
                ls.drop_first().drop_last(),
            ) + seq![10u8] + ls.last()));
        }
    }
}

proof fn lemma_line_len_concat(x: Seq<u8>, y: Seq<u8>)
    requires
        !x.contains(10u8),
        y.len() == 0 || y[0] == 10u8,
    ensures
        line_len(x + y) == x.len(),
    decreases x.len(),
{
    if x.len() == 0 {
        assert(x + y =~= y);
    } else {
        assert((x + y)[0] == x[0]);
        assert(x[0] != 10u8);
        assert(!x.drop_first().contains(10u8)) by {
            if x.drop_first().contains(10u8) {
                let j = choose|j: int| 0 <= j < x.drop_first().len() && x.drop_first()[j] == 10u8;
                assert(x[j + 1] == 10u8);
            }
        }
        lemma_line_len_concat(x.drop_first(), y);
        assert((x + y).drop_first() =~= x.drop_first() + y);
    }
}

/// The first line of a join of line-feed-free lines is the first of them.
pub proof fn lemma_first_line_of_join(ls: Seq<Seq<u8>>)
    requires
        ls.len() > 0,
        !ls[0].contains(10u8),
    ensures
        first_line(spec_join(ls)) == ls[0],
{
    lemma_join_front(ls);
    if ls.len() == 1 {
        lemma_line_len_concat(ls[0], Seq::<u8>::empty());
        assert(ls[0] + Seq::<u8>::empty() =~= ls[0]);
        assert(spec_join(ls).take(ls[0].len() as int) =~= ls[0]);
    } else {
        let y = seq![10u8] + spec_join(ls.drop_first());
        assert(y[0] == 10u8);
        lemma_line_len_concat(ls[0], y);
        assert(ls[0] + seq![10u8] + spec_join(ls.drop_first()) =~= ls[0] + y);
        assert((ls[0] + y).take(ls[0].len() as int) =~= ls[0]);
    }
}

/// Splits file bytes into physical lines.
pub fn split_lines(input: &Vec<u8>) -> (r: Vec<Vec<u8>>)
    ensures
        r.deep_view() == spec_lines(input@),
{
    let mut out: Vec<Vec<u8>> = Vec::new();
    let mut cur: Vec<u8> = Vec::new();
    let mut i: usize = 0;
    proof {
        lemma_deep_view_empty(out);
        assert(input@.take(0) =~= Seq::<u8>::empty());
        assert(out.deep_view().push(cur@) =~= spec_split(input@.take(0)));
    }
    while i < input.len()
        invariant
            i <= input.len(),
            out.deep_view().push(cur@) == spec_split(input@.take(i as int)),
        decreases input.len() - i,
    {
        let b = input[i];
        proof {
            assert(input@.take(i + 1).drop_last() =~= input@.take(i as int));
            assert(input@.take(i + 1).last() == input@[i as int]);
        }
        if b == 10 {
            let ghost old_out = out;
            let ghost curg = cur;
            out.push(cur);
            cur = Vec::new();
            proof {
                lemma_deep_view_push(old_out, out, curg);
                assert(out.deep_view().push(cur@) =~= spec_split(input@.take(i as int)).push(
                    Seq::<u8>::empty(),
                ));
            }
        } else {
            let ghost oc = cur@;
            cur.push(b);
            proof {
                let prev = spec_split(input@.take(i as int));
                assert(prev == out.deep_view().push(oc));
                assert(prev.last() == oc);
                assert(prev.update(prev.len() - 1, prev.last().push(b)) =~= out.deep_view().push(
                    cur@,
                ));
            }
        }
        i += 1;
    }
    proof {
        assert(input@.take(input@.len() as int) =~= input@);
    }
    if input.len() > 0 && input[input.len() - 1] == 10 {
        proof {
            assert(input@.last() == 10u8);
            assert(out.deep_view() =~= spec_split(input@).drop_last());
        }
        out
    } else {
        let ghost old_out = out;
        let ghost curg = cur;
        out.push(cur);
        proof {
            lemma_deep_view_push(old_out, out, curg);
        }
        out
    }
}

/// Joins the lines `ls[start..end]` with line feeds.
pub fn join_range(ls: &Vec<Vec<u8>>, start: usize, end: usize) -> (r: Vec<u8>)
    requires
        start <= end <= ls@.len(),
    ensures
        r@ == spec_join(ls.deep_view().subrange(start as int, end as int)),
{
    let ghost dv = ls.deep_view();
    let mut r: Vec<u8> = Vec::new();
    let mut m: usize = start;
    proof {
        assert(dv.subrange(start as int, start as int) =~= Seq::<Seq<u8>>::empty());
    }
    while m < end
        invariant
            start <= m <= end <= ls@.len(),
            dv == ls.deep_view(),
            r@ == spec_join(dv.subrange(start as int, m as int)),
        decreases end - m,
    {
        if m > start {
            r.push(10);
        }
        let ghost before = r@;
        let line = &ls[m];
        proof {
            assert(dv[m as int] =~= line@);
        }
        let mut t: usize = 0;
        while t < line.len()
            invariant
                t <= line@.len(),
                r@ == before + line@.take(t as int),
            decreases line.len() - t,
        {
            r.push(line[t]);
            proof {
                assert(line@.take(t + 1) =~= line@.take(t as int).push(line@[t as int]));
            }
            t += 1;
        }
        proof {
            assert(line@.take(line@.len() as int) =~= line@);
            let sub1 = dv.subrange(start as int, m + 1);
            assert(sub1.drop_last() =~= dv.subrange(start as int, m as int));
            assert(sub1.last() == dv[m as int]);
            if m == start {
                assert(sub1.len() == 1);
                assert(spec_join(sub1) == sub1[0]);
                assert(r@ =~= dv[m as int]);
            } else {
                assert(sub1.len() > 1);
                assert(spec_join(sub1) == spec_join(dv.subrange(start as int, m as int))
                    + seq![10u8] + dv[m as int]);
                assert(r@ =~= spec_join(dv.subrange(start as int, m as int)) + seq![10u8] + dv[
                    m as int
                ]);
            }
        }
        m += 1;
    }
    r
}

/// The first line of `v`: its bytes before the first line feed.
pub fn first_line_bytes(v: &Vec<u8>) -> (r: Vec<u8>)
    ensures
        r@ == first_line(v@),
{
    let mut j: usize = 0;
    while j < v.len() && v[j] != 10
        invariant
            j <= v@.len(),
            forall|k: int| 0 <= k < j ==> v@[k] != 10u8,
        decreases v.len() - j,
    {
        j += 1;
    }
    proof {
        lemma_line_len_run(v@, j as int);
    }
    let mut r: Vec<u8> = Vec::new();
    let mut t: usize = 0;
    while t < j
        invariant
            t <= j <= v@.len(),
            r@ == v@.take(t as int),
        decreases j - t,
    {
        r.push(v[t]);
        proof {
            assert(v@.take(t + 1) =~= v@.take(t as int).push(v@[t as int]));
        }
        t += 1;
    }
    r
}

proof fn lemma_line_len_run(s: Seq<u8>, j: int)
    requires
        0 <= j <= s.len(),
        forall|k: int| 0 <= k < j ==> s[k] != 10u8,
        j == s.len() || s[j] == 10u8,
    ensures
        line_len(s) == j,
    decreases j,
{
    if j > 0 {
        let t = s.drop_first();
        assert(forall|k: int| 0 <= k < j - 1 ==> t[k] != 10u8);
        lemma_line_len_run(t, j - 1);
    }
}

} // verus!
