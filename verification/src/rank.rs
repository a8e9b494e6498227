//! The hotspot score combinator: for every churned path still present in the
//! working tree with the target extension, parse it, score it, and rank all
//! records by score, descending, ties broken by path.

use vstd::prelude::*;
use vstd::multiset::Multiset;
use vstd::relations::{sorted_by, total_ordering};
use vstd::seq_lib::lemma_sorted_unique;
use vstd::utf8::{encode_utf8, encode_utf8_decode_utf8};
use crate::analyzer::{CodeAnalyzer, parsed_tree};
use crate::churn::ChurnMap;
use crate::files::FileSnapshot;
use crate::strutil::{
    has_rs_extension, lemma_lex_lt_asym, lemma_lex_lt_connex, lemma_lex_lt_trans, lex_lt,
    spec_has_rs_extension, str_lex_lt,
};
use crate::tree::{cap64, complexity};

verus! {

broadcast use vstd::seq_lib::group_to_multiset_ensures, vstd::multiset::group_multiset_axioms;

/// One ranked file: its path, how many commits touched it, and its
/// depth-weighted complexity. The ranking score rises with
/// `churn * sqrt(complexity)`; records are compared by the equivalent exact
/// integer key `churn * churn * complexity`.
pub struct HotspotRecord {
    pub path: String,
    pub churn: u32,
    pub complexity: u64,
}

/// The mathematical content of a record.
#[verifier::ext_equal]
pub struct RecView {
    pub path: Seq<char>,
    pub churn: u32,
    pub complexity: u64,
}

pub open spec fn rec_view(r: HotspotRecord) -> RecView {
    RecView { path: r.path@, churn: r.churn, complexity: r.complexity }
}

pub open spec fn recs_view(s: Seq<HotspotRecord>) -> Seq<RecView> {
    s.map_values(|r: HotspotRecord| rec_view(r))
}

/// The exact ranking key: `churn * churn * complexity` orders exactly as the
/// real-valued score `churn * sqrt(complexity)` does, both being non-negative.
pub open spec fn rank_key_of(churn: int, complexity: int) -> int {
    churn * churn * complexity
}

pub open spec fn rank_key(r: RecView) -> int {
    rank_key_of(r.churn as int, r.complexity as int)
}

/// The output order: score descending, ties by path ascending in byte-wise
/// lexicographic order, then by the remaining fields so the order is total.
pub open spec fn rec_le(a: RecView, b: RecView) -> bool {
    ||| rank_key(a) > rank_key(b)
    ||| (rank_key(a) == rank_key(b) && lex_lt(encode_utf8(a.path), encode_utf8(b.path)))
    ||| (rank_key(a) == rank_key(b) && a.path == b.path && (a.churn < b.churn || (a.churn
        == b.churn && a.complexity <= b.complexity)))
}

pub open spec fn rec_order() -> spec_fn(RecView, RecView) -> bool {
    |a: RecView, b: RecView| rec_le(a, b)
}

/// The output order is a total order, so the ranked sequence of a record set
/// is unique: the same inputs always rank the same way.
pub proof fn lemma_rec_order_total()
    ensures
        total_ordering(rec_order()),
{
    let r = rec_order();
    assert forall|a: RecView| #[trigger] r(a, a) by {}
    assert forall|a: RecView, b: RecView| #[trigger] r(a, b) && #[trigger] r(b, a) implies a == b by {
        lemma_lex_lt_asym(encode_utf8(a.path), encode_utf8(b.path));
        if a.path == b.path || b.path == a.path {
            assert(encode_utf8(a.path) == encode_utf8(b.path));
        }
        assert(a.path == b.path);
        assert(a.churn == b.churn && a.complexity == b.complexity);
        assert(a =~= b);
    }
    assert forall|a: RecView, b: RecView, c: RecView|
        #[trigger] r(a, b) && #[trigger] r(b, c) implies r(a, c) by {
        if rank_key(a) == rank_key(b) && rank_key(b) == rank_key(c) {
            let ea = encode_utf8(a.path);
            let eb = encode_utf8(b.path);
            let ec = encode_utf8(c.path);
            if lex_lt(ea, eb) && lex_lt(eb, ec) {
                lemma_lex_lt_trans(ea, eb, ec);
            }
        }
    }
    assert forall|a: RecView, b: RecView| #[trigger] r(a, b) || #[trigger] r(b, a) by {
        if rank_key(a) == rank_key(b) {
            let ea = encode_utf8(a.path);
            let eb = encode_utf8(b.path);
            lemma_lex_lt_connex(ea, eb);
            if !lex_lt(ea, eb) && !lex_lt(eb, ea) {
                encode_utf8_decode_utf8(a.path);
                encode_utf8_decode_utf8(b.path);
                assert(a.path == b.path);
            }
        }
    }
}

fn rank_key_exec(churn: u32, complexity: u64) -> (k: u128)
    ensures
        k == rank_key_of(churn as int, complexity as int),
{
    let c = churn as u128;
    let x = complexity as u128;
    proof {
        assert((c as int) * (c as int) <= 0xffff_ffff * 0xffff_ffff) by (nonlinear_arith)
            requires
                0 <= (c as int),
            (c as int) <= 0xffff_ffff,
        ;
        assert((c as int) * (c as int) * (x as int) <= 0xffff_ffff * 0xffff_ffff
            * 0xffff_ffff_ffff_ffff) by (nonlinear_arith)
            requires
                0 <= c as int,
                0 <= (x as int),
            (x as int) <= 0xffff_ffff_ffff_ffff,
                (c as int) * (c as int) <= 0xffff_ffff * 0xffff_ffff,
        ;
    }
    c * c * x
}

/// Whether `a` comes no later than `b` in the output order.
pub fn rec_le_exec(a: &HotspotRecord, b: &HotspotRecord) -> (r: bool)
    ensures
        r == rec_le(rec_view(*a), rec_view(*b)),
{
    let ka = rank_key_exec(a.churn, a.complexity);
    let kb = rank_key_exec(b.churn, b.complexity);
    if ka > kb {
        true
    } else if ka < kb {
        false
    } else if str_lex_lt(&a.path, &b.path) {
        true
    } else if str_lex_lt(&b.path, &a.path) {
        false
    } else {
        proof {
            lemma_lex_lt_connex(encode_utf8(a.path@), encode_utf8(b.path@));
            encode_utf8_decode_utf8(a.path@);
            encode_utf8_decode_utf8(b.path@);
            assert(a.path@ == b.path@);
        }
        if a.churn < b.churn {
            true
        } else if a.churn > b.churn {
            false
        } else {
            a.complexity <= b.complexity
        }
    }
}

fn find_insert_pos(out: &Vec<HotspotRecord>, x: &HotspotRecord) -> (j: usize)
    ensures
        0 <= j <= out@.len(),
        forall|k: int| 0 <= k < j ==> rec_le(rec_view(out@[k]), rec_view(*x)),
        j < out@.len() ==> !rec_le(rec_view(out@[j as int]), rec_view(*x)),
{
    let mut j: usize = 0;
    while j < out.len()
        invariant
            0 <= j <= out@.len(),
            forall|k: int| 0 <= k < j ==> rec_le(rec_view(out@[k]), rec_view(*x)),
        decreases out@.len() - j,
    {
        if !rec_le_exec(&out[j], x) {
            return j;
        }
        j = j + 1;
    }
    j
}

proof fn lemma_recs_view_insert(s: Seq<HotspotRecord>, j: int, x: HotspotRecord)
    requires
        0 <= j <= s.len(),
    ensures
        recs_view(s.insert(j, x)) =~= recs_view(s).insert(j, rec_view(x)),
{
}

proof fn lemma_recs_view_remove0(s: Seq<HotspotRecord>)
    requires
        s.len() > 0,
    ensures
        recs_view(s.remove(0)) =~= recs_view(s).remove(0),
{
}

/// Sort records into the output order. The result is the one ordering of the
/// input set that the output order admits, so ranking is deterministic.
pub fn sort_records(records: Vec<HotspotRecord>) -> (r: Vec<HotspotRecord>)
    ensures
        recs_view(r@) == recs_view(records@).sort_by(rec_order()),
{
    let ghost orig = recs_view(records@);
    let mut v = records;
    let mut out: Vec<HotspotRecord> = Vec::new();
    proof {
        assert(recs_view(out@) =~= Seq::<RecView>::empty());
        assert(recs_view(out@).to_multiset().add(recs_view(v@).to_multiset()) =~= orig.to_multiset());
    }
    while v.len() > 0
        invariant
            sorted_by(recs_view(out@), rec_order()),
            recs_view(out@).to_multiset().add(recs_view(v@).to_multiset()) == orig.to_multiset(),
        decreases v@.len(),
    {
        let ghost pre_vs = v@;
        let ghost pre_v = recs_view(v@);
        let ghost pre = recs_view(out@);
        let ghost ord = rec_order();
        let x = v.remove(0);
        proof {
            lemma_recs_view_remove0(pre_vs);
            assert(recs_view(v@) =~= pre_v.remove(0));
            assert(rec_view(x) == pre_v[0]);
            assert(pre_v.to_multiset().contains(pre_v[0]));
            assert(pre_v.to_multiset() =~= recs_view(v@).to_multiset().insert(rec_view(x)));
        }
        let j = find_insert_pos(&out, &x);
        proof {
            lemma_rec_order_total();
            if (j as int) < pre.len() {
                assert(!ord(pre[j as int], rec_view(x)));
                assert(ord(rec_view(x), pre[j as int]) || ord(pre[j as int], rec_view(x)));
            }
            assert forall|k: int| j <= k < pre.len() implies ord(rec_view(x), pre[k]) by {
                if k > j {
                    assert(ord(pre[j as int], pre[k]));
                }
            }
        }
        let ghost pre_out_seq = out@;
        out.insert(j, x);
        proof {
            let rx = rec_view(x);
            lemma_recs_view_insert(pre_out_seq, j as int, x);
            assert(recs_view(out@) =~= pre.insert(j as int, rx));
            assert(recs_view(out@).to_multiset() =~= pre.to_multiset().insert(rx));
            assert(recs_view(out@).to_multiset().add(recs_view(v@).to_multiset()) =~= orig
                .to_multiset());
            let newv = recs_view(out@);
            assert forall|p: int, q: int|
                0 <= p < q < newv.len() implies #[trigger] ord(newv[p], newv[q]) by {
                if p < j && q < j {
                    assert(newv[p] == pre[p] && newv[q] == pre[q]);
                } else if p < j && q == j {
                    assert(newv[p] == pre[p] && newv[q] == rx);
                } else if p < j && q > j {
                    assert(newv[p] == pre[p] && newv[q] == pre[q - 1]);
                } else if p == j {
                    assert(newv[p] == rx && newv[q] == pre[q - 1]);
                } else {
                    assert(newv[p] == pre[p - 1] && newv[q] == pre[q - 1]);
                }
            }
            assert(sorted_by(newv, rec_order()));
        }
    }
    proof {
        lemma_rec_order_total();
        assert(recs_view(v@) =~= Seq::<RecView>::empty());
        assert(recs_view(v@).to_multiset() =~= Multiset::<RecView>::empty());
        assert(recs_view(out@).to_multiset() =~= orig.to_multiset());
        recs_view(records@).lemma_sort_by_ensures(rec_order());
        lemma_sorted_unique(recs_view(out@), orig.sort_by(rec_order()), rec_order());
    }
    out
}

/// The record one churn entry owes: none where the path lacks the target
/// extension, is missing from the working tree, or does not parse.
pub open spec fn tail_record(e: (String, u32), files: Map<Seq<char>, Seq<char>>) -> Seq<RecView> {
    if spec_has_rs_extension(encode_utf8(e.0@)) && files.contains_key(e.0@) {
        match parsed_tree(files[e.0@]) {
            Some(t) => seq![
                RecView { path: e.0@, churn: e.1, complexity: cap64(complexity(t, 0)) as u64 },
            ],
            None => Seq::empty(),
        }
    } else {
        Seq::empty()
    }
}

/// The records owed to the churn entries, in entry order, before ranking.
pub open spec fn raw_records(
    entries: Seq<(String, u32)>,
    files: Map<Seq<char>, Seq<char>>,
) -> Seq<RecView>
    decreases entries.len(),
{
    if entries.len() == 0 {
        Seq::empty()
    } else {
        raw_records(entries.drop_last(), files) + tail_record(entries.last(), files)
    }
}

/// Everything the combinator hands back for given churn entries and
/// working-tree contents: the owed records, ranked.
pub open spec fn spec_hotspots(
    entries: Seq<(String, u32)>,
    files: Map<Seq<char>, Seq<char>>,
) -> Seq<RecView> {
    raw_records(entries, files).sort_by(rec_order())
}

/// The combinator: every churned path that the snapshot still holds, with the
/// target extension and a parseable content, yields one record with its churn
/// and complexity; every other churned path is skipped, never an error. The
/// result is ranked by score descending, ties by path ascending; the same
/// churn map and snapshot always give the same ranking.
pub fn rank_hotspots(
    analyzer: &mut CodeAnalyzer,
    churn: &ChurnMap,
    files: &FileSnapshot,
) -> (r: Vec<HotspotRecord>)
    requires
        churn.wf(),
        files.wf(),
    ensures
        recs_view(r@) == spec_hotspots(churn.entries@, files.view_map()),
{
    let mut raw: Vec<HotspotRecord> = Vec::new();
    let n = churn.entries.len();
    let mut i: usize = 0;
    proof {
        assert(churn.entries@.take(0) =~= Seq::<(String, u32)>::empty());
        assert(recs_view(raw@) =~= Seq::<RecView>::empty());
    }
    while i < n
        invariant
            n == churn.entries@.len(),
            files.wf(),
            0 <= i <= n,
            recs_view(raw@) == raw_records(churn.entries@.take(i as int), files.view_map()),
        decreases n - i,
    {
        let ghost pre = raw@;
        let path: &String = &churn.entries[i].0;
        let cnt: u32 = churn.entries[i].1;
        if has_rs_extension(path) {
            match files.get(path) {
                Some(content) => {
                    match analyzer.score(content.as_str()) {
                        Ok(c) => {
                            raw.push(
                                HotspotRecord { path: path.clone(), churn: cnt, complexity: c },
                            );
                            proof {
                                assert(recs_view(raw@) =~= recs_view(pre).push(
                                    rec_view(raw@.last()),
                                ));
                            }
                        },
                        Err(_) => {},
                    }
                },
                None => {},
            }
        }
        proof {
            let ev = churn.entries@;
            assert(ev.take(i + 1).drop_last() =~= ev.take(i as int));
            assert(ev.take(i + 1).last() == ev[i as int]);
            assert(recs_view(raw@) =~= raw_records(ev.take(i + 1), files.view_map()));
        }
        i = i + 1;
    }
    proof {
        assert(churn.entries@.take(n as int) =~= churn.entries@);
    }
    sort_records(raw)
}

proof fn lemma_raw_no_deleted(
    entries: Seq<(String, u32)>,
    files: Map<Seq<char>, Seq<char>>,
    path: Seq<char>,
)
    requires
        !files.contains_key(path),
    ensures
        forall|k: int|
            0 <= k < raw_records(entries, files).len() ==> (#[trigger] raw_records(
                entries,
                files,
            )[k].path) != path,
    decreases entries.len(),
{
    if entries.len() > 0 {
        lemma_raw_no_deleted(entries.drop_last(), files, path);
        let whole = raw_records(entries, files);
        let left = raw_records(entries.drop_last(), files);
        let t = tail_record(entries.last(), files);
        assert forall|k: int| 0 <= k < whole.len() implies (#[trigger] whole[k].path) != path by {
            if k < left.len() {
                assert(whole[k] == left[k]);
            } else {
                assert(whole[k] == t[k - left.len()]);
                assert(files.contains_key(entries.last().0@));
            }
        }
    }
}

/// A path that history touched but that the working tree no longer holds
/// yields no record at all: it is skipped, not an error.
pub proof fn lemma_deleted_path_excluded(
    entries: Seq<(String, u32)>,
    files: Map<Seq<char>, Seq<char>>,
    path: Seq<char>,
)
    requires
        !files.contains_key(path),
    ensures
        forall|k: int|
            0 <= k < spec_hotspots(entries, files).len() ==> (#[trigger] spec_hotspots(
                entries,
                files,
            )[k].path) != path,
{
    lemma_raw_no_deleted(entries, files, path);
    lemma_rec_order_total();
    let raw = raw_records(entries, files);
    raw.lemma_sort_by_ensures(rec_order());
    let sorted = spec_hotspots(entries, files);
    assert forall|k: int| 0 <= k < sorted.len() implies (#[trigger] sorted[k].path) != path by {
        let x = sorted[k];
        assert(sorted.contains(x));
        assert(raw.contains(x));
        let m = choose|m: int| 0 <= m < raw.len() && raw[m] == x;
        assert(raw[m].path != path);
    }
}

/// Ranked output is canonical: any two record sequences that hold the same
/// records and both stand in the output order are one and the same sequence.
/// With the exact contract of [`rank_hotspots`], running the pipeline twice
/// over an unchanged churn map and working tree yields identical output.
pub proof fn lemma_ranking_canonical(x: Seq<RecView>, y: Seq<RecView>)
    requires
        sorted_by(x, rec_order()),
        sorted_by(y, rec_order()),
        x.to_multiset() == y.to_multiset(),
    ensures
        x == y,
{
    lemma_rec_order_total();
    lemma_sorted_unique(x, y, rec_order());
}

/// Holding complexity fixed and nonzero, more churn ranks strictly higher.
/// (With complexity zero every churn scores zero, by design, so such inputs
/// are left out here.)
pub proof fn lemma_churn_raises_score(churn1: u32, churn2: u32, complexity: u64)
    requires
        churn1 < churn2,
        complexity > 0,
    ensures
        rank_key_of(churn1 as int, complexity as int) < rank_key_of(
            churn2 as int,
            complexity as int,
        ),
{
    assert((churn1 as int) * (churn1 as int) * (complexity as int) < (churn2 as int) * (
    churn2 as int) * (complexity as int)) by (nonlinear_arith)
        requires
            0 <= churn1 as int,
            (churn1 as int) < (churn2 as int),
            0 < complexity as int,
    ;
}

/// Holding churn fixed and nonzero, more complexity ranks strictly higher.
pub proof fn lemma_complexity_raises_score(churn: u32, complexity1: u64, complexity2: u64)
    requires
        complexity1 < complexity2,
        churn > 0,
    ensures
        rank_key_of(churn as int, complexity1 as int) < rank_key_of(
            churn as int,
            complexity2 as int,
        ),
{
    assert((churn as int) * (churn as int) * (complexity1 as int) < (churn as int) * (churn as int)
        * (complexity2 as int)) by (nonlinear_arith)
        requires
            0 < churn as int,
            0 <= complexity1 as int,
            (complexity1 as int) < (complexity2 as int),
    ;
}

} // verus!
