//! Entries: tag line, sources line and description body, segmented out of a
//! file's physical lines.
use vstd::prelude::*;
use crate::text::{trimmed, trim_bytes, copy_bytes, lemma_deep_view_empty, lemma_deep_view_push};
use crate::lines::{spec_lines, spec_join, split_lines, lemma_lines_of_join,
    lemma_lines_no_nl_inside};

verus! {

/// One searchable record of a library file: the raw tag line, the raw sources
/// line, the description lines in original order, and the score of the last
/// search, zero until one is made.
pub struct Entry {
    pub score: u32,
    pub tags: Vec<u8>,
    pub sources: Vec<u8>,
    pub description: Vec<Vec<u8>>,
}

/// The mathematical shadow of an [`Entry`].
#[verifier::ext_equal]
pub ghost struct EntryView {
    pub score: u32,
    pub tags: Seq<u8>,
    pub sources: Seq<u8>,
    pub description: Seq<Seq<u8>>,
}

impl View for Entry {
    type V = EntryView;

    open spec fn view(&self) -> EntryView {
        EntryView {
            score: self.score,
            tags: self.tags@,
            sources: self.sources@,
            description: self.description.deep_view(),
        }
    }
}

impl Entry {
    /// An empty entry: no tags, no sources, no description, score zero.
    pub fn new() -> (e: Entry)
        ensures
            e@ == (EntryView {
                score: 0,
                tags: Seq::<u8>::empty(),
                sources: Seq::<u8>::empty(),
                description: Seq::<Seq<u8>>::empty(),
            }),
    {
        let e = Entry { score: 0, tags: Vec::new(), sources: Vec::new(), description: Vec::new() };
        proof {
            lemma_deep_view_empty(e.description);
        }
        e
    }
}

/// A tag line: after trimming, at least two bytes, starting with `[` and
/// ending with `]`.
pub open spec fn spec_is_tags(line: Seq<u8>) -> bool {
    let t = trimmed(line);
    t.len() >= 2 && t[0] == 91u8 && t.last() == 93u8
}

/// A sources line: after trimming, at least two bytes, starting with `{` and
/// ending with `}`.
pub open spec fn spec_is_sources(line: Seq<u8>) -> bool {
    let t = trimmed(line);
    t.len() >= 2 && t[0] == 123u8 && t.last() == 125u8
}

/// Whether `line` classifies as a tag line.
pub fn is_tags(line: &Vec<u8>) -> (r: bool)
    ensures
        r == spec_is_tags(line@),
{
    let t = trim_bytes(line);
    t.len() >= 2 && t[0] == 91 && t[t.len() - 1] == 93
}

/// Whether `line` classifies as a sources line.
pub fn is_sources(line: &Vec<u8>) -> (r: bool)
    ensures
        r == spec_is_sources(line@),
{
    let t = trim_bytes(line);
    t.len() >= 2 && t[0] == 123 && t[t.len() - 1] == 125
}

/// A header position: a tag line immediately followed by a sources line.
pub open spec fn spec_header_at(ls: Seq<Seq<u8>>, i: int) -> bool {
    0 <= i && i + 1 < ls.len() && spec_is_tags(ls[i]) && spec_is_sources(ls[i + 1])
}

/// All header positions of a line sequence, in ascending order.
pub open spec fn spec_headers(ls: Seq<Seq<u8>>) -> Seq<int> {
    Seq::new(ls.len() as nat, |i: int| i).filter(|i: int| spec_header_at(ls, i))
}

/// No line is both a tag line and a sources line, so two header positions are
/// at least two lines apart.
pub proof fn lemma_headers_separated(ls: Seq<Seq<u8>>, i: int, j: int)
    requires
        spec_header_at(ls, i),
        spec_header_at(ls, j),
        i < j,
    ensures
        i + 2 <= j,
{
    if j == i + 1 {
        assert(spec_is_sources(ls[i + 1]));
        assert(spec_is_tags(ls[j]));
        assert(trimmed(ls[j])[0] == 91u8 && trimmed(ls[j])[0] == 123u8);
    }
}

/// The header positions of `ls`, ascending, each a valid header.
pub fn header_positions(ls: &Vec<Vec<u8>>) -> (r: Vec<usize>)
    ensures
        r@.map_values(|u: usize| u as int) == spec_headers(ls.deep_view()),
        forall|a: int, b: int| 0 <= a < b < r@.len() ==> r@[a] < r@[b],
        forall|a: int| 0 <= a < r@.len() ==> spec_header_at(ls.deep_view(), #[trigger] r@[a] as int),
    decreases ls.len(),
{
    let ghost dv = ls.deep_view();
    let ghost pred = |i: int| spec_header_at(dv, i);
    let mut r: Vec<usize> = Vec::new();
    let mut i: usize = 0;
    proof {
        assert(Seq::new(0nat, |i: int| i) =~= Seq::<int>::empty());
        assert(r@.map_values(|u: usize| u as int) =~= Seq::new(0nat, |i: int| i).filter(pred));
    }
    while i < ls.len()
        invariant
            i <= ls.len(),
            dv == ls.deep_view(),
            pred == (|i: int| spec_header_at(dv, i)),
            r@.map_values(|u: usize| u as int) == Seq::new(i as nat, |i: int| i).filter(pred),
            forall|a: int, b: int| 0 <= a < b < r@.len() ==> r@[a] < r@[b],
            forall|a: int| 0 <= a < r@.len() ==> r@[a] < i,
            forall|a: int| 0 <= a < r@.len() ==> spec_header_at(dv, #[trigger] r@[a] as int),
        decreases ls.len() - i,
    {
        let ghost base = Seq::new(i as nat, |i: int| i);
        proof {
            assert(Seq::new((i + 1) as nat, |i: int| i).drop_last() =~= base);
            assert(Seq::new((i + 1) as nat, |i: int| i).last() == i as int);
            assert(Seq::new((i + 1) as nat, |i: int| i) == base.push(i as int));
        }
        let is_header = if i + 1 < ls.len() {
            let here = is_tags(&ls[i]);
            let next = is_sources(&ls[i + 1]);
            proof {
                assert(dv[i as int] =~= ls@[i as int]@);
                assert(dv[i + 1] =~= ls@[i + 1]@);
            }
            here && next
        } else {
            false
        };
        proof {
            reveal(Seq::filter);
            assert(is_header == pred(i as int));
            let ext = base.push(i as int);
            assert(ext.drop_last() =~= base);
            assert(ext.last() == i as int);
            if pred(i as int) {
                assert(ext.filter(pred) == base.filter(pred).push(i as int));
            } else {
                assert(ext.filter(pred) == base.filter(pred));
            }
        }
        if is_header {
            let ghost old_r = r@;
            r.push(i);
            proof {
                assert(r@.map_values(|u: usize| u as int) =~= old_r.map_values(
                    |u: usize| u as int,
                ).push(i as int));
            }
        }
        i += 1;
    }
    proof {
        assert(Seq::new(ls.len() as nat, |i: int| i) =~= Seq::new(dv.len() as nat, |i: int| i));
    }
    r
}

/// Projection of an entry out of the line sequence: tag line at `start`,
/// sources line right after it, description up to (excluding) `end`.
pub open spec fn spec_entry_view(ls: Seq<Seq<u8>>, start: int, end: int) -> EntryView {
    EntryView {
        score: 0,
        tags: ls[start],
        sources: ls[start + 1],
        description: ls.subrange(start + 2, end),
    }
}

/// The end of the entry whose header is `hp[k]`: the next header position, or
/// the end of the file.
pub open spec fn spec_entry_end(hp: Seq<int>, k: int, n: int) -> int {
    if k + 1 < hp.len() {
        hp[k + 1]
    } else {
        n
    }
}

/// All entries of a file, one per header position, in file order.
pub open spec fn spec_entries(ls: Seq<Seq<u8>>) -> Seq<EntryView> {
    let hp = spec_headers(ls);
    Seq::new(hp.len(), |k: int| spec_entry_view(ls, hp[k], spec_entry_end(hp, k, ls.len() as int)))
}

proof fn lemma_filter_ascending(s: Seq<int>, pred: spec_fn(int) -> bool)
    requires
        forall|a: int, b: int| 0 <= a < b < s.len() ==> s[a] < s[b],
    ensures
        forall|a: int, b: int|
            0 <= a < b < s.filter(pred).len() ==> s.filter(pred)[a] < s.filter(pred)[b],
        s.filter(pred).len() > 0 ==> s.len() > 0 && s.filter(pred).last() <= s.last(),
    decreases s.len(),
{
    reveal(Seq::filter);
    if s.len() > 0 {
        let init = s.drop_last();
        lemma_filter_ascending(init, pred);
        let f = init.filter(pred);
        if pred(s.last()) {
            assert(s.filter(pred) == f.push(s.last()));
            assert forall|a: int, b: int|
                0 <= a < b < s.filter(pred).len() implies s.filter(pred)[a] < s.filter(pred)[
            b] by {
                if b < f.len() {
                } else {
                    assert(s.filter(pred)[b] == s.last());
                    assert(f[a] <= f.last());
                    assert(init.last() == s[s.len() - 2]);
                }
            }
        } else {
            assert(s.filter(pred) == f);
            if f.len() > 0 {
                assert(init.last() == s[s.len() - 2]);
            }
        }
    }
}

/// Header positions come out in strictly ascending file order, and each one
/// is a valid header.
pub proof fn lemma_headers_ascending(ls: Seq<Seq<u8>>)
    ensures
        forall|a: int, b: int|
            0 <= a < b < spec_headers(ls).len() ==> spec_headers(ls)[a] < spec_headers(ls)[b],
        forall|a: int|
            0 <= a < spec_headers(ls).len() ==> spec_header_at(ls, #[trigger] spec_headers(ls)[a]),
{
    let base = Seq::new(ls.len() as nat, |i: int| i);
    let pred = |i: int| spec_header_at(ls, i);
    lemma_filter_ascending(base, pred);
    assert forall|a: int|
        0 <= a < spec_headers(ls).len() implies spec_header_at(
        ls,
        #[trigger] spec_headers(ls)[a],
    ) by {
        base.lemma_filter_pred(pred, a);
    }
}

/// A copy of the lines `ls[start..end]`.
pub fn copy_line_range(ls: &Vec<Vec<u8>>, start: usize, end: usize) -> (r: Vec<Vec<u8>>)
    requires
        start <= end <= ls@.len(),
    ensures
        r.deep_view() == ls.deep_view().subrange(start as int, end as int),
{
    let ghost dv = ls.deep_view();
    let mut r: Vec<Vec<u8>> = Vec::new();
    let mut m: usize = start;
    proof {
        lemma_deep_view_empty(r);
        assert(r.deep_view() =~= dv.subrange(start as int, start as int));
    }
    while m < end
        invariant
            start <= m <= end <= ls@.len(),
            dv == ls.deep_view(),
            r.deep_view() == dv.subrange(start as int, m as int),
        decreases end - m,
    {
        let c = copy_bytes(&ls[m]);
        proof {
            assert(dv[m as int] =~= ls@[m as int]@);
        }
        let ghost old_r = r;
        let ghost cg = c;
        r.push(c);
        proof {
            lemma_deep_view_push(old_r, r, cg);
            assert(old_r.deep_view().push(cg@) =~= dv.subrange(start as int, m + 1));
        }
        m += 1;
    }
    r
}

/// All entries of the file `content`, in file order, scores zero. A file
/// without a complete tag/sources header pair yields no entries.
pub fn get_entries(content: &Vec<u8>) -> (r: Vec<Entry>)
    ensures
        r@.map_values(|e: Entry| e@) == spec_entries(spec_lines(content@)),
        spec_headers(spec_lines(content@)).len() == 0 ==> r@.len() == 0,
{
    let ls = split_lines(content);
    let hp = header_positions(&ls);
    let ghost lsv = ls.deep_view();
    let ghost hpv = spec_headers(lsv);
    let ghost evs = spec_entries(lsv);
    let mut r: Vec<Entry> = Vec::new();
    let mut k: usize = 0;
    proof {
        assert(hpv.len() == hp@.map_values(|u: usize| u as int).len());
        assert(r@.map_values(|e: Entry| e@) =~= evs.take(0));
    }
    while k < hp.len()
        invariant
            k <= hp@.len(),
            lsv == ls.deep_view(),
            hpv == spec_headers(lsv),
            evs == spec_entries(lsv),
            hp@.map_values(|u: usize| u as int) == hpv,
            ls@.len() == lsv.len(),
            forall|a: int, b: int| 0 <= a < b < hp@.len() ==> hp@[a] < hp@[b],
            forall|a: int| 0 <= a < hp@.len() ==> spec_header_at(lsv, #[trigger] hp@[a] as int),
            r@.map_values(|e: Entry| e@) == evs.take(k as int),
        decreases hp@.len() - k,
    {
        let start = hp[k];
        proof {
            assert(spec_header_at(lsv, start as int));
        }
        let end: usize = if k + 1 < hp.len() {
            proof {
                lemma_headers_separated(lsv, start as int, hp@[k + 1] as int);
            }
            hp[k + 1]
        } else {
            ls.len()
        };
        let tags = copy_bytes(&ls[start]);
        let sources = copy_bytes(&ls[start + 1]);
        let description = copy_line_range(&ls, start + 2, end);
        let e = Entry { score: 0, tags, sources, description };
        proof {
            assert(lsv[start as int] =~= ls@[start as int]@);
            assert(lsv[start + 1] =~= ls@[start + 1]@);
            assert(e@ =~= spec_entry_view(lsv, start as int, end as int));
            assert(evs[k as int] == spec_entry_view(
                lsv,
                hpv[k as int],
                spec_entry_end(hpv, k as int, lsv.len() as int),
            ));
            assert(spec_entry_end(hpv, k as int, lsv.len() as int) == end as int);
        }
        let ghost old_r = r@;
        r.push(e);
        proof {
            assert(r@.map_values(|e: Entry| e@) =~= old_r.map_values(|e: Entry| e@).push(e@));
            assert(evs.take(k + 1) =~= evs.take(k as int).push(evs[k as int]));
        }
        k += 1;
    }
    proof {
        assert(evs.take(hpv.len() as int) =~= evs);
    }
    r
}

/// The lines of the `target_entry`-th entry (counting from one): its tag and
/// sources lines and its description, up to the next header or end of input.
/// `None` when there is no such entry.
pub fn get_entry(target_entry: i32, lines: &Vec<Vec<u8>>) -> (r: Option<Vec<Vec<u8>>>)
    ensures
        ({
            let ls = lines.deep_view();
            let hp = spec_headers(ls);
            &&& (r is Some <==> 1 <= target_entry && target_entry <= hp.len())
            &&& (r is Some ==> r.unwrap().deep_view() == ls.subrange(
                hp[target_entry - 1],
                spec_entry_end(hp, target_entry - 1, ls.len() as int),
            ))
        }),
{
    let ghost lsv = lines.deep_view();
    let hp = header_positions(lines);
    proof {
        assert(spec_headers(lsv).len() == hp@.map_values(|u: usize| u as int).len());
    }
    if target_entry <= 0 {
        return None;
    }
    let idx = (target_entry - 1) as usize;
    if idx >= hp.len() {
        return None;
    }
    let start = hp[idx];
    proof {
        assert(spec_header_at(lsv, start as int));
    }
    let end: usize = if idx + 1 < hp.len() {
        proof {
            lemma_headers_separated(lsv, start as int, hp@[idx + 1] as int);
        }
        hp[idx + 1]
    } else {
        lines.len()
    };
    Some(copy_line_range(lines, start, end))
}

/// An entry's description body, re-joined with line feeds, splits back into
/// exactly the same lines: nothing is lost and nothing reordered. The one
/// exclusion is a body that ends in an empty line beyond its first: its
/// re-join ends in a line feed, which the splitter absorbs.
pub proof fn lemma_description_round_trip(content: Seq<u8>, k: int)
    requires
        0 <= k < spec_entries(spec_lines(content)).len(),
        ({
            let d = spec_entries(spec_lines(content))[k].description;
            d.len() > 0 && (d.last().len() > 0 || d.len() == 1)
        }),
    ensures
        ({
            let d = spec_entries(spec_lines(content))[k].description;
            spec_lines(spec_join(d)) == d
        }),
{
    let ls = spec_lines(content);
    let hp = spec_headers(ls);
    lemma_headers_ascending(ls);
    let start = hp[k];
    let end = spec_entry_end(hp, k, ls.len() as int);
    assert(spec_header_at(ls, start));
    if k + 1 < hp.len() {
        assert(spec_header_at(ls, hp[k + 1]));
        lemma_headers_separated(ls, start, hp[k + 1]);
    }
    let d = ls.subrange(start + 2, end);
    assert(spec_entries(ls)[k].description == d);
    lemma_lines_no_nl_inside(content);
    assert forall|j: int| 0 <= j < d.len() implies !(#[trigger] d[j]).contains(10u8) by {
        assert(d[j] == ls[start + 2 + j]);
    }
    lemma_lines_of_join(d);
}

/// The marker `.txt` as bytes.
pub open spec fn txt_marker() -> Seq<u8> {
    seq![46u8, 116u8, 120u8, 116u8]
}

/// Whether a file name contains `.txt`.
pub open spec fn spec_contains_txt(name: Seq<u8>) -> bool {
    exists|i: int| 0 <= i && i + 4 <= name.len() && #[trigger] name.subrange(i, i + 4) == txt_marker()
}

fn contains_txt(name: &Vec<u8>) -> (r: bool)
    ensures
        r == spec_contains_txt(name@),
{
    if name.len() < 4 {
        proof {
            assert(!spec_contains_txt(name@));
        }
        return false;
    }
    let mut i: usize = 0;
    while i <= name.len() - 4
        invariant
            name@.len() >= 4,
            i <= name@.len() - 3,
            forall|j: int|
                0 <= j < i && j + 4 <= name@.len() ==> #[trigger] name@.subrange(j, j + 4)
                    != txt_marker(),
        decreases name.len() - i,
    {
        if name[i] == 46 && name[i + 1] == 116 && name[i + 2] == 120 && name[i + 3] == 116 {
            proof {
                assert(name@.subrange(i as int, i + 4) =~= txt_marker());
            }
            return true;
        }
        proof {
            let sub = name@.subrange(i as int, i + 4);
            if sub == txt_marker() {
                assert(sub[0] == 46u8 && sub[1] == 116u8 && sub[2] == 120u8 && sub[3] == 116u8);
                assert(name@[i as int] == 46u8 && name@[i + 1] == 116u8 && name@[i + 2] == 120u8
                    && name@[i + 3] == 116u8);
            }
        }
        i += 1;
    }
    proof {
        if spec_contains_txt(name@) {
            let j = choose|j: int|
                0 <= j && j + 4 <= name@.len() && #[trigger] name@.subrange(j, j + 4)
                    == txt_marker();
            assert(j < i);
        }
    }
    false
}

/// Whether the named file is a library: its name contains `.txt` and its
/// content holds at least one tag line immediately followed by a sources
/// line.
pub fn is_library(name: &Vec<u8>, content: &Vec<u8>) -> (r: bool)
    ensures
        r == (spec_contains_txt(name@) && spec_headers(spec_lines(content@)).len() > 0),
{
    if !contains_txt(name) {
        return false;
    }
    let ls = split_lines(content);
    let hp = header_positions(&ls);
    proof {
        assert(spec_headers(ls.deep_view()).len() == hp@.map_values(|u: usize| u as int).len());
    }
    hp.len() > 0
}

} // verus!
