//! Ranking: scoring entries against search terms, dropping zero scores, and
//! ordering what remains by descending score.
use vstd::prelude::*;
use vstd::seq_lib::{seq_to_set_is_finite, to_multiset_build, to_multiset_remove, to_multiset_len,
    to_multiset_contains};
use vstd::set_lib::lemma_len_intersect;
use vstd::multiset::Multiset;
use crate::text::{lower_seq, copy_bytes, lemma_deep_view_empty, lemma_deep_view_push};
use crate::lines::{spec_lines, spec_join, first_line, split_lines, join_range,
    lemma_lines_no_nl_inside, lemma_first_line_of_join};
use crate::entry::{Entry, EntryView, spec_headers, spec_header_at, spec_entry_end,
    lemma_headers_separated, header_positions, copy_line_range};
use crate::score::{term_set, tag_set, spec_score, score_entry};

verus! {

/// The views of a sequence of entries.
pub open spec fn entry_views(es: Seq<Entry>) -> Seq<EntryView> {
    es.map_values(|e: Entry| e@)
}

/// `ev` with its score set to the score of its tag line against `args`.
pub open spec fn with_score(ev: EntryView, args: Seq<Seq<u8>>) -> EntryView {
    EntryView {
        score: spec_score(args, ev.tags) as u32,
        tags: ev.tags,
        sources: ev.sources,
        description: ev.description,
    }
}

/// Every entry rescored against `args`.
pub open spec fn spec_rescored(evs: Seq<EntryView>, args: Seq<Seq<u8>>) -> Seq<EntryView> {
    evs.map_values(|ev: EntryView| with_score(ev, args))
}

/// Scores never increase along the sequence.
pub open spec fn sorted_desc(evs: Seq<EntryView>) -> bool {
    forall|a: int, b: int| 0 <= a <= b < evs.len() ==> evs[a].score >= evs[b].score
}

/// A score cannot exceed the number of search terms.
pub proof fn lemma_score_le_args(args: Seq<Seq<u8>>, line: Seq<u8>)
    ensures
        spec_score(args, line) <= args.len(),
{
    broadcast use seq_to_set_is_finite;

    let m = args.map_values(|a: Seq<u8>| lower_seq(a));
    m.lemma_cardinality_of_set();
    lemma_len_intersect(term_set(args), tag_set(line));
}

/// Moving one element from one multiset to another changes neither side of
/// the combined collection.
proof fn lemma_multiset_transfer<A>(o: Multiset<A>, s: Multiset<A>, x: A)
    requires
        s.count(x) > 0,
    ensures
        o.insert(x).add(s.remove(x)) == o.add(s),
{
    broadcast use vstd::multiset::group_multiset_axioms;

    assert(o.insert(x).add(s.remove(x)) =~= o.add(s));
}

/// Keeps the entries whose score is positive, in order.
pub open spec fn keep_positive(evs: Seq<EntryView>) -> Seq<EntryView> {
    evs.filter(|ev: EntryView| ev.score > 0)
}

/// Scores the entries against the search terms, drops those that match no
/// term, and sorts the rest by score, highest first. The result is a
/// permutation of the positively scoring rescored entries; tied scores carry
/// no promised order.
pub fn sort_by_tags(input: Vec<Entry>, args: &Vec<Vec<u8>>) -> (r: Vec<Entry>)
    requires
        args@.len() <= u32::MAX,
    ensures
        entry_views(r@).to_multiset() == keep_positive(
            spec_rescored(entry_views(input@), args.deep_view()),
        ).to_multiset(),
        sorted_desc(entry_views(r@)),
        forall|k: int| 0 <= k < r@.len() ==> (#[trigger] entry_views(r@)[k]).score > 0,
{
    broadcast use to_multiset_build, to_multiset_remove, to_multiset_len, to_multiset_contains;

    let ghost av = args.deep_view();
    let ghost pred = |ev: EntryView| ev.score > 0;
    let ghost rescored = spec_rescored(entry_views(input@), av);
    let mut scored: Vec<Entry> = Vec::new();
    let mut k: usize = 0;
    proof {
        reveal(Seq::filter);
        assert(av.len() == args@.len());
        assert(rescored.take(0) =~= Seq::<EntryView>::empty());
        assert(entry_views(scored@) =~= keep_positive(rescored.take(0)));
    }
    while k < input.len()
        invariant
            k <= input@.len(),
            av == args.deep_view(),
            av.len() <= u32::MAX,
            pred == (|ev: EntryView| ev.score > 0),
            rescored == spec_rescored(entry_views(input@), av),
            entry_views(scored@) == keep_positive(rescored.take(k as int)),
            forall|t: int| 0 <= t < scored@.len() ==> (#[trigger] scored@[t])@.score > 0,
        decreases input.len() - k,
    {
        let s = score_entry(args, &input[k].tags);
        proof {
            lemma_score_le_args(av, input@[k as int]@.tags);
            assert(rescored[k as int] == with_score(entry_views(input@)[k as int], av));
            assert(rescored[k as int].score == s as u32);
            assert(pred(rescored[k as int]) == (s > 0));
            reveal(Seq::filter);
            let ext = rescored.take(k as int).push(rescored[k as int]);
            assert(rescored.take(k + 1) =~= ext);
            assert(ext.drop_last() =~= rescored.take(k as int));
            assert(ext.last() == rescored[k as int]);
            if pred(rescored[k as int]) {
                assert(keep_positive(ext) == keep_positive(rescored.take(k as int)).push(
                    rescored[k as int],
                ));
            } else {
                assert(keep_positive(ext) == keep_positive(rescored.take(k as int)));
            }
        }
        if s > 0 {
            let e = Entry {
                score: s as u32,
                tags: copy_bytes(&input[k].tags),
                sources: copy_bytes(&input[k].sources),
                description: copy_line_range(&input[k].description, 0, input[k].description.len()),
            };
            proof {
                let dv = input@[k as int].description.deep_view();
                assert(dv.subrange(0, dv.len() as int) =~= dv);
                assert(e@ =~= with_score(input@[k as int]@, av));
                assert(e@ == rescored[k as int]);
            }
            let ghost old_scored = scored@;
            scored.push(e);
            proof {
                assert(entry_views(scored@) =~= entry_views(old_scored).push(e@));
            }
        }
        k += 1;
    }
    proof {
        assert(rescored.take(rescored.len() as int) =~= rescored);
    }

    let ghost total = entry_views(scored@).to_multiset();
    let mut src = scored;
    let mut out: Vec<Entry> = Vec::new();
    proof {
        assert(entry_views(out@) =~= Seq::<EntryView>::empty());
        assert(entry_views(out@).to_multiset().add(entry_views(src@).to_multiset()) =~= total);
    }
    while src.len() > 0
        invariant
            entry_views(out@).to_multiset().add(entry_views(src@).to_multiset()) == total,
            sorted_desc(entry_views(out@)),
            forall|a: int, b: int|
                0 <= a < out@.len() && 0 <= b < src@.len() ==> out@[a]@.score >= src@[b]@.score,
            forall|t: int| 0 <= t < out@.len() ==> (#[trigger] out@[t])@.score > 0,
            forall|t: int| 0 <= t < src@.len() ==> (#[trigger] src@[t])@.score > 0,
        decreases src.len(),
    {
        let mut mi: usize = 0;
        let mut mj: usize = 1;
        while mj < src.len()
            invariant
                mi < mj <= src@.len(),
                src@.len() > 0,
                forall|t: int| 0 <= t < mj ==> src@[t]@.score <= src@[mi as int]@.score,
            decreases src.len() - mj,
        {
            if src[mj].score > src[mi].score {
                mi = mj;
            }
            mj += 1;
        }
        let ghost old_src = src@;
        let e = src.remove(mi);
        proof {
            assert(entry_views(src@) =~= entry_views(old_src).remove(mi as int));
            assert(entry_views(old_src)[mi as int] == e@);
            assert(entry_views(old_src).contains(e@));
            to_multiset_contains(entry_views(old_src), e@);
            to_multiset_remove(entry_views(old_src), mi as int);
            assert(entry_views(src@).to_multiset() == entry_views(old_src).to_multiset().remove(
                e@,
            ));
            lemma_multiset_transfer(
                entry_views(out@).to_multiset(),
                entry_views(old_src).to_multiset(),
                e@,
            );
            assert forall|t: int| 0 <= t < src@.len() implies (#[trigger] src@[t])@.score > 0 by {
                if t < mi {
                    assert(src@[t] == old_src[t]);
                } else {
                    assert(src@[t] == old_src[t + 1]);
                }
            }
        }
        let ghost old_out = out@;
        out.push(e);
        proof {
            assert(entry_views(out@) =~= entry_views(old_out).push(e@));
            to_multiset_build(entry_views(old_out), e@);
            assert(entry_views(out@).to_multiset() == entry_views(old_out).to_multiset().insert(
                e@,
            ));
            assert(sorted_desc(entry_views(out@)));
            assert forall|a: int, b: int|
                0 <= a < out@.len() && 0 <= b < src@.len() implies out@[a]@.score >= src@[
            b]@.score by {
                if b < mi {
                    assert(old_src[b]@.score <= old_src[mi as int]@.score);
                } else {
                    assert(src@[b] == old_src[b + 1]);
                }
            }
        }
    }
    proof {
        assert(entry_views(src@) =~= Seq::<EntryView>::empty());
        assert(entry_views(out@).to_multiset().add(Seq::<EntryView>::empty().to_multiset())
            =~= entry_views(out@).to_multiset());
        assert forall|k2: int| 0 <= k2 < out@.len() implies (#[trigger] entry_views(out@)[
        k2]).score > 0 by {
            assert(entry_views(out@)[k2] == out@[k2]@);
        }
    }
    out
}

/// The text of each entry of the file `content`: the entry's lines re-joined
/// with line feeds, one text per header, in file order.
pub open spec fn spec_file_blobs(content: Seq<u8>) -> Seq<Seq<u8>> {
    let ls = spec_lines(content);
    let hp = spec_headers(ls);
    Seq::new(
        hp.len(),
        |k: int| spec_join(ls.subrange(hp[k], spec_entry_end(hp, k, ls.len() as int))),
    )
}

/// The entry texts of all files, in file order.
pub open spec fn spec_all_blobs(files: Seq<Seq<u8>>) -> Seq<Seq<u8>>
    decreases files.len(),
{
    if files.len() == 0 {
        Seq::empty()
    } else {
        spec_all_blobs(files.drop_last()) + spec_file_blobs(files.last())
    }
}

/// The score of an entry text: its first line is the entry's tag line.
pub open spec fn blob_score(args: Seq<Seq<u8>>, blob: Seq<u8>) -> nat {
    spec_score(args, first_line(blob))
}

/// The entry texts whose score against `args` is positive, in order.
pub open spec fn keep_scored(args: Seq<Seq<u8>>, blobs: Seq<Seq<u8>>) -> Seq<Seq<u8>> {
    blobs.filter(|b: Seq<u8>| blob_score(args, b) > 0)
}

/// The entries of one file as re-joined texts, in file order. A file without
/// a complete tag/sources header pair yields none.
pub fn entries_from(content: &Vec<u8>) -> (r: Vec<Vec<u8>>)
    ensures
        r.deep_view() == spec_file_blobs(content@),
        spec_headers(spec_lines(content@)).len() == 0 ==> r@.len() == 0,
{
    let ls = split_lines(content);
    let hp = header_positions(&ls);
    let ghost lsv = ls.deep_view();
    let ghost hpv = spec_headers(lsv);
    let ghost goal = spec_file_blobs(content@);
    let mut r: Vec<Vec<u8>> = Vec::new();
    let mut k: usize = 0;
    proof {
        assert(hpv.len() == hp@.map_values(|u: usize| u as int).len());
        lemma_deep_view_empty(r);
        assert(r.deep_view() =~= goal.take(0));
    }
    while k < hp.len()
        invariant
            k <= hp@.len(),
            lsv == ls.deep_view(),
            lsv == spec_lines(content@),
            hpv == spec_headers(lsv),
            goal == spec_file_blobs(content@),
            goal.len() == hpv.len(),
            hp@.map_values(|u: usize| u as int) == hpv,
            ls@.len() == lsv.len(),
            forall|a: int, b: int| 0 <= a < b < hp@.len() ==> hp@[a] < hp@[b],
            forall|a: int| 0 <= a < hp@.len() ==> spec_header_at(lsv, #[trigger] hp@[a] as int),
            r.deep_view() == goal.take(k as int),
        decreases hp@.len() - k,
    {
        let start = hp[k];
        proof {
            assert(spec_header_at(lsv, start as int));
        }
        let end: usize = if k + 1 < hp.len() {
            proof {
                lemma_headers_separated(lsv, start as int, hp@[k + 1] as int);
            }
            hp[k + 1]
        } else {
            ls.len()
        };
        let blob = join_range(&ls, start, end);
        proof {
            assert(spec_entry_end(hpv, k as int, lsv.len() as int) == end as int);
            assert(goal[k as int] == spec_join(lsv.subrange(start as int, end as int)));
        }
        let ghost old_r = r;
        let ghost bg = blob;
        r.push(blob);
        proof {
            lemma_deep_view_push(old_r, r, bg);
            assert(goal.take(k + 1) =~= goal.take(k as int).push(goal[k as int]));
        }
        k += 1;
    }
    proof {
        assert(goal.take(goal.len() as int) =~= goal);
    }
    r
}

/// An entry text paired with its score against the current search.
struct Scored {
    score: usize,
    text: Vec<u8>,
}

/// The texts of scored pairs, in order.
spec fn scored_texts(s: Seq<Scored>) -> Seq<Seq<u8>> {
    s.map_values(|p: Scored| p.text@)
}

/// Each pair's stored score is the positive score of its text.
spec fn scored_wf(s: Seq<Scored>, args: Seq<Seq<u8>>) -> bool {
    forall|k: int|
        0 <= k < s.len() ==> (#[trigger] s[k]).score == blob_score(args, s[k].text@) && s[k].score
            > 0
}

/// All positively scoring entries of all files, as re-joined texts, sorted
/// by score against `args`, highest first. Zero-score entries are dropped;
/// tied scores carry no promised order.
pub fn scored_entries(args: &Vec<Vec<u8>>, files: &Vec<Vec<u8>>) -> (r: Vec<Vec<u8>>)
    ensures
        forall|k: int|
            0 <= k < r.deep_view().len() ==> blob_score(
                args.deep_view(),
                #[trigger] r.deep_view()[k],
            ) > 0,
        forall|a: int, b: int|
            0 <= a <= b < r.deep_view().len() ==> blob_score(args.deep_view(), r.deep_view()[a])
                >= blob_score(args.deep_view(), r.deep_view()[b]),
        r.deep_view().to_multiset() == keep_scored(
            args.deep_view(),
            spec_all_blobs(files.deep_view()),
        ).to_multiset(),
{
    broadcast use to_multiset_build, to_multiset_remove, to_multiset_len, to_multiset_contains;

    let ghost av = args.deep_view();
    let ghost fv = files.deep_view();
    let ghost pred = |b: Seq<u8>| blob_score(av, b) > 0;
    let mut pending: Vec<Scored> = Vec::new();
    let mut f: usize = 0;
    proof {
        reveal(Seq::filter);
        assert(spec_all_blobs(fv.take(0)) =~= Seq::<Seq<u8>>::empty());
        assert(scored_texts(pending@) =~= keep_scored(av, spec_all_blobs(fv.take(0))));
    }
    while f < files.len()
        invariant
            f <= files@.len(),
            av == args.deep_view(),
            fv == files.deep_view(),
            pred == (|b: Seq<u8>| blob_score(av, b) > 0),
            scored_texts(pending@) == keep_scored(av, spec_all_blobs(fv.take(f as int))),
            scored_wf(pending@, av),
        decreases files.len() - f,
    {
        let ghost acc0 = spec_all_blobs(fv.take(f as int));
        let ls = split_lines(&files[f]);
        let hp = header_positions(&ls);
        let ghost lsv = ls.deep_view();
        let ghost hpv = spec_headers(lsv);
        let ghost blobs = spec_file_blobs(fv[f as int]);
        proof {
            assert(fv[f as int] =~= files@[f as int]@);
            assert(hpv.len() == hp@.map_values(|u: usize| u as int).len());
            lemma_lines_no_nl_inside(files@[f as int]@);
            assert(lsv == spec_lines(files@[f as int]@));
            assert forall|j: int| 0 <= j < lsv.len() implies !(#[trigger] lsv[j]).contains(
                10u8,
            ) by {
                assert(lsv[j] == spec_lines(files@[f as int]@)[j]);
            }
            assert(blobs.len() == hpv.len());
            assert(blobs.take(0) =~= Seq::<Seq<u8>>::empty());
            assert(acc0 + blobs.take(0) =~= acc0);
            assert(keep_scored(av, acc0 + blobs.take(0)) == scored_texts(pending@));
        }
        let mut k: usize = 0;
        while k < hp.len()
            invariant
                k <= hp@.len(),
                av == args.deep_view(),
                pred == (|b: Seq<u8>| blob_score(av, b) > 0),
                lsv == ls.deep_view(),
                hpv == spec_headers(lsv),
                blobs.len() == hpv.len(),
                forall|j: int|
                    0 <= j < hpv.len() ==> blobs[j] == spec_join(
                        lsv.subrange(hpv[j], spec_entry_end(hpv, j, lsv.len() as int)),
                    ),
                forall|j: int|
                    0 <= j < lsv.len() ==> !(#[trigger] lsv[j]).contains(10u8),
                hp@.map_values(|u: usize| u as int) == hpv,
                ls@.len() == lsv.len(),
                forall|a: int, b: int| 0 <= a < b < hp@.len() ==> hp@[a] < hp@[b],
                forall|a: int| 0 <= a < hp@.len() ==> spec_header_at(lsv, #[trigger] hp@[a] as int),
                scored_texts(pending@) == keep_scored(av, acc0 + blobs.take(k as int)),
                scored_wf(pending@, av),
            decreases hp@.len() - k,
        {
            let start = hp[k];
            proof {
                assert(spec_header_at(lsv, start as int));
            }
            let end: usize = if k + 1 < hp.len() {
                proof {
                    lemma_headers_separated(lsv, start as int, hp@[k + 1] as int);
                }
                hp[k + 1]
            } else {
                ls.len()
            };
            let blob = join_range(&ls, start, end);
            let s = score_entry(args, &ls[start]);
            proof {
                assert(spec_entry_end(hpv, k as int, lsv.len() as int) == end as int);
                assert(blobs[k as int] == spec_join(lsv.subrange(start as int, end as int)));
                assert(blob@ == blobs[k as int]);
                let sub = lsv.subrange(start as int, end as int);
                assert(sub.len() > 0);
                assert(sub[0] == lsv[start as int]);
                assert(!sub[0].contains(10u8));
                lemma_first_line_of_join(sub);
                assert(first_line(blob@) == lsv[start as int]);
                assert(lsv[start as int] =~= ls@[start as int]@);
                assert(s == blob_score(av, blob@));
                reveal(Seq::filter);
                let ext = (acc0 + blobs.take(k as int)).push(blobs[k as int]);
                assert(ext.drop_last() =~= acc0 + blobs.take(k as int));
                assert(ext.last() == blobs[k as int]);
                assert(acc0 + blobs.take(k + 1) =~= ext);
                if pred(blobs[k as int]) {
                    assert(keep_scored(av, ext) == keep_scored(av, acc0 + blobs.take(
                        k as int,
                    )).push(blobs[k as int]));
                } else {
                    assert(keep_scored(av, ext) == keep_scored(av, acc0 + blobs.take(k as int)));
                }
            }
            if s > 0 {
                let ghost old_p = pending@;
                let ghost blobg = blob;
                pending.push(Scored { score: s, text: blob });
                proof {
                    assert(scored_texts(pending@) =~= scored_texts(old_p).push(blobg@));
                }
            }
            k += 1;
        }
        proof {
            assert(blobs.take(hpv.len() as int) =~= blobs);
            assert(fv.take(f + 1).drop_last() =~= fv.take(f as int));
            assert(fv.take(f + 1).last() == fv[f as int]);
            assert(spec_all_blobs(fv.take(f + 1)) == acc0 + blobs);
        }
        f += 1;
    }
    proof {
        assert(fv.take(fv.len() as int) =~= fv);
    }

    // sort the kept entries by score, highest first
    let ghost total = scored_texts(pending@).to_multiset();
    let mut src = pending;
    let mut out: Vec<Scored> = Vec::new();
    proof {
        assert(scored_texts(out@) =~= Seq::<Seq<u8>>::empty());
        assert(scored_texts(out@).to_multiset().add(scored_texts(src@).to_multiset()) =~= total);
    }
    while src.len() > 0
        invariant
            av == args.deep_view(),
            scored_texts(out@).to_multiset().add(scored_texts(src@).to_multiset()) == total,
            scored_wf(out@, av),
            scored_wf(src@, av),
            forall|a: int, b: int|
                0 <= a <= b < out@.len() ==> out@[a].score >= out@[b].score,
            forall|a: int, b: int|
                0 <= a < out@.len() && 0 <= b < src@.len() ==> out@[a].score >= src@[b].score,
        decreases src.len(),
    {
        let mut mi: usize = 0;
        let mut mj: usize = 1;
        while mj < src.len()
            invariant
                mi < mj <= src@.len(),
                src@.len() > 0,
                forall|t: int| 0 <= t < mj ==> src@[t].score <= src@[mi as int].score,
            decreases src.len() - mj,
        {
            if src[mj].score > src[mi].score {
                mi = mj;
            }
            mj += 1;
        }
        let ghost old_src = src@;
        let e = src.remove(mi);
        proof {
            assert(scored_texts(src@) =~= scored_texts(old_src).remove(mi as int));
            assert(scored_texts(old_src)[mi as int] == e.text@);
            assert(scored_texts(old_src).contains(e.text@));
            to_multiset_contains(scored_texts(old_src), e.text@);
            to_multiset_remove(scored_texts(old_src), mi as int);
            assert(scored_texts(src@).to_multiset() == scored_texts(old_src).to_multiset().remove(
                e.text@,
            ));
            lemma_multiset_transfer(
                scored_texts(out@).to_multiset(),
                scored_texts(old_src).to_multiset(),
                e.text@,
            );
        }
        let ghost old_out = out@;
        let ghost eg = e;
        out.push(e);
        proof {
            assert(scored_texts(out@) =~= scored_texts(old_out).push(eg.text@));
            to_multiset_build(scored_texts(old_out), eg.text@);
            assert(scored_texts(out@).to_multiset() == scored_texts(old_out).to_multiset().insert(
                eg.text@,
            ));
            assert forall|a: int, b: int|
                0 <= a < out@.len() && 0 <= b < src@.len() implies out@[a].score >= src@[
            b].score by {
                if b < mi {
                    assert(old_src[b].score <= old_src[mi as int].score);
                } else {
                    assert(src@[b] == old_src[b + 1]);
                }
            }
        }
    }
    proof {
        assert(scored_texts(src@) =~= Seq::<Seq<u8>>::empty());
        assert(scored_texts(out@).to_multiset().add(Seq::<Seq<u8>>::empty().to_multiset())
            =~= scored_texts(out@).to_multiset());
    }

    // hand the texts out, in order
    let mut r: Vec<Vec<u8>> = Vec::new();
    let mut k: usize = 0;
    proof {
        lemma_deep_view_empty(r);
        assert(r.deep_view() =~= scored_texts(out@).take(0));
    }
    while k < out.len()
        invariant
            k <= out@.len(),
            r.deep_view() == scored_texts(out@).take(k as int),
        decreases out.len() - k,
    {
        let c = copy_bytes(&out[k].text);
        let ghost old_r = r;
        let ghost cg = c;
        r.push(c);
        proof {
            lemma_deep_view_push(old_r, r, cg);
            assert(scored_texts(out@).take(k + 1) =~= scored_texts(out@).take(k as int).push(
                scored_texts(out@)[k as int],
            ));
        }
        k += 1;
    }
    proof {
        assert(scored_texts(out@).take(out@.len() as int) =~= scored_texts(out@));
        let kept = keep_scored(av, spec_all_blobs(fv));
        assert(r.deep_view() == scored_texts(out@));
        assert(r.deep_view().to_multiset() == kept.to_multiset());
        assert forall|k2: int| 0 <= k2 < r.deep_view().len() implies blob_score(
            av,
            #[trigger] r.deep_view()[k2],
        ) > 0 by {
            assert(r.deep_view()[k2] == out@[k2].text@);
            assert(out@[k2].score == blob_score(av, out@[k2].text@) && out@[k2].score > 0);
        }
    }
    r
}

} // verus!
