//! Compound-candidate generation.
//!
//! Given a `yomi` reading, this module enumerates *compound* candidates: a
//! compound is built by partitioning the **entire** yomi into `k >= 2`
//! contiguous parts, where each part is a dictionary reading key. Picking one
//! candidate string per part and concatenating them (in part order) yields one
//! output text. (`k = 1`, i.e. a single whole-word match, is left to the SKK
//! client's own dictionary lookup and is never produced here.)
//!
//! # Ordering (best-first)
//!
//! 1. **Primary — `k` ascending.** Every `k = 2` result precedes every
//!    `k = 3` result, and so on; larger `k` is only enumerated while fewer than
//!    `max_final_candidates` distinct texts have been collected.
//! 2. **Within a fixed `k`:** `rank` = the sum of the chosen candidate indices,
//!    ascending (a balanced, diagonal enumeration); on equal rank, split
//!    enumeration order (dictionary registration order); on equal rank and
//!    split, the index tuple in lexicographic order.
//! 3. **Dedup by output text** across the whole run; collection stops at
//!    `max_final_candidates` distinct texts.
//!
//! The enumeration walks rank bands `0, 1, 2, ...`; inside a band it visits the
//! splits in order and, inside a split, the index tuples of that band in
//! lexicographic order. It never materializes the full cartesian product and
//! stops the instant the cap is met.

use vstd::prelude::*;
use crate::dictionary::Candidate;
use crate::snapshot::{cands_view, CandModel, DictionarySnapshot, MatchModel, matches_view, PrefixMatch};
use crate::text::chars_of;
use crate::dictionary::EntryModel;
use crate::loader::{
    law_okuri_ari_prefix_matches_complete, law_prefix_matches_complete, law_prefix_matches_sound,
    registers, snapshot_holds,
};

verus! {

// ---------------------------------------------------------------------------
// Collecting distinct texts up to a cap
// ---------------------------------------------------------------------------

/// Scan `xs` left to right, appending to `acc` each text it does not hold
/// yet, until `acc` holds `cap` texts.
pub open spec fn absorb(acc: Seq<Seq<char>>, xs: Seq<Seq<char>>, cap: nat) -> Seq<Seq<char>>
    decreases xs.len(),
{
    if xs.len() == 0 {
        acc
    } else {
        let p = absorb(acc, xs.drop_last(), cap);
        if p.len() >= cap || p.contains(xs.last()) {
            p
        } else {
            p.push(xs.last())
        }
    }
}

/// The first `cap` distinct texts of `xs`, in order of first occurrence.
pub open spec fn first_distinct(xs: Seq<Seq<char>>, cap: nat) -> Seq<Seq<char>> {
    absorb(Seq::empty(), xs, cap)
}

pub proof fn lemma_absorb_concat(acc: Seq<Seq<char>>, xs: Seq<Seq<char>>, ys: Seq<Seq<char>>, cap: nat)
    ensures
        absorb(acc, xs + ys, cap) == absorb(absorb(acc, xs, cap), ys, cap),
    decreases ys.len(),
{
    if ys.len() == 0 {
        assert(xs + ys =~= xs);
    } else {
        lemma_absorb_concat(acc, xs, ys.drop_last(), cap);
        assert((xs + ys).drop_last() =~= xs + ys.drop_last());
        assert((xs + ys).last() == ys.last());
    }
}

pub proof fn lemma_absorb_full(acc: Seq<Seq<char>>, xs: Seq<Seq<char>>, cap: nat)
    requires
        acc.len() >= cap,
    ensures
        absorb(acc, xs, cap) == acc,
    decreases xs.len(),
{
    if xs.len() > 0 {
        lemma_absorb_full(acc, xs.drop_last(), cap);
    }
}

pub proof fn lemma_absorb_len(acc: Seq<Seq<char>>, xs: Seq<Seq<char>>, cap: nat)
    ensures
        acc.len() <= absorb(acc, xs, cap).len(),
        acc.len() <= cap ==> absorb(acc, xs, cap).len() <= cap,
        absorb(acc, xs, cap).take(acc.len() as int) == acc,
    decreases xs.len(),
{
    if xs.len() > 0 {
        lemma_absorb_len(acc, xs.drop_last(), cap);
        let p = absorb(acc, xs.drop_last(), cap);
        assert(p.push(xs.last()).take(acc.len() as int) =~= p.take(acc.len() as int));
    }
}

fn contains_string(v: &Vec<String>, t: &String) -> (b: bool)
    ensures
        b == strings_view(v@).contains(t@),
{
    let ghost sv = strings_view(v@);
    let mut i: usize = 0;
    while i < v.len()
        invariant
            0 <= i <= v@.len(),
            sv == strings_view(v@),
            forall|j: int| 0 <= j < i ==> sv[j] != t@,
        decreases v.len() - i,
    {
        if v[i] == *t {
            assert(sv[i as int] == t@);
            return true;
        }
        i = i + 1;
    }
    false
}

pub open spec fn strings_view(v: Seq<String>) -> Seq<Seq<char>> {
    v.map_values(|s: String| s@)
}

/// Offer one text to the collected results.
fn offer(results: &mut Vec<String>, text: String, cap: usize)
    ensures
        strings_view(final(results)@) == absorb(strings_view(old(results)@), seq![text@], cap as nat),
{
    let ghost before = strings_view(results@);
    assert(seq![text@].drop_last() =~= Seq::<Seq<char>>::empty());
    assert(seq![text@].last() == text@);
    assert(before.len() == results@.len());
    assert(absorb(before, seq![text@].drop_last(), cap as nat) == before);
    if results.len() < cap && !contains_string(results, &text) {
        let ghost tv = text@;
        results.push(text);
        assert(strings_view(results@) =~= before.push(tv));
    }
}

// ---------------------------------------------------------------------------
// Combination stream of one split
// ---------------------------------------------------------------------------

/// One part of a split: its dictionary reading and its candidates.
pub type PartModel = (Seq<char>, Seq<CandModel>);

/// Texts of every choice of one candidate per part whose candidate indices
/// sum to `r`, in lexicographic order of the index tuples.
pub open spec fn band_texts(parts: Seq<PartModel>, r: nat) -> Seq<Seq<char>>
    decreases parts.len(), 1nat, 0nat,
{
    if parts.len() == 0 {
        if r == 0 {
            seq![Seq::<char>::empty()]
        } else {
            Seq::empty()
        }
    } else {
        let m = if parts[0].1.len() < r + 1 { parts[0].1.len() } else { r + 1 };
        band_texts_upto(parts, r, m)
    }
}

/// `band_texts` restricted to first-part indices below `m`.
pub open spec fn band_texts_upto(parts: Seq<PartModel>, r: nat, m: nat) -> Seq<Seq<char>>
    decreases parts.len(), 0nat, m,
{
    if parts.len() == 0 || m == 0 || m > r + 1 {
        Seq::empty()
    } else {
        let i = (m - 1) as nat;
        band_texts_upto(parts, r, i) + prefixed(
            parts[0].1[i as int].0,
            band_texts(parts.drop_first(), (r - i) as nat),
        )
    }
}

/// Every text of `ts` with `p` in front.
pub open spec fn prefixed(p: Seq<char>, ts: Seq<Seq<char>>) -> Seq<Seq<char>> {
    ts.map_values(|t: Seq<char>| p + t)
}

proof fn lemma_prefixed_concat(p: Seq<char>, xs: Seq<Seq<char>>, ys: Seq<Seq<char>>)
    ensures
        prefixed(p, xs + ys) == prefixed(p, xs) + prefixed(p, ys),
{
    assert(prefixed(p, xs + ys) =~= prefixed(p, xs) + prefixed(p, ys));
}

proof fn lemma_prefixed_twice(p: Seq<char>, q: Seq<char>, ts: Seq<Seq<char>>)
    ensures
        prefixed(p, prefixed(q, ts)) == prefixed(p + q, ts),
{
    assert forall|i: int| 0 <= i < ts.len() implies prefixed(p, prefixed(q, ts))[i] == prefixed(
        p + q,
        ts,
    )[i] by {
        assert(p + (q + ts[i]) =~= (p + q) + ts[i]);
    }
    assert(prefixed(p, prefixed(q, ts)) =~= prefixed(p + q, ts));
}

/// The parts of a split as values: each part's reading and candidates.
pub open spec fn parts_view(parts: Seq<&[Candidate]>, readings: Seq<Seq<char>>) -> Seq<PartModel> {
    Seq::new(parts.len(), |i: int| (readings[i], cands_view(parts[i]@)))
}

fn append_text(prefix: &String, t: &String) -> (s: String)
    ensures
        s@ == prefix@ + t@,
{
    let mut s = prefix.clone();
    s.append(t.as_str());
    s
}

/// Offer `prefix` + every text of `band_texts(parts[d..], r)` to `results`.
fn emit_band(
    parts: &Vec<&[Candidate]>,
    Ghost(readings): Ghost<Seq<Seq<char>>>,
    d: usize,
    r: u128,
    prefix: &String,
    results: &mut Vec<String>,
    cap: usize,
)
    requires
        d <= parts@.len(),
        readings.len() == parts@.len(),
    ensures
        strings_view(final(results)@) == absorb(
            strings_view(old(results)@),
            prefixed(prefix@, band_texts(parts_view(parts@, readings).skip(d as int), r as nat)),
            cap as nat,
        ),
    decreases parts@.len() - d,
{
    let ghost pv = parts_view(parts@, readings).skip(d as int);
    if d == parts.len() {
        if r == 0 {
            assert(prefixed(prefix@, band_texts(pv, 0)) =~= seq![prefix@]) by {
                assert(prefix@ + Seq::<char>::empty() =~= prefix@);
            }
            offer(results, prefix.clone(), cap);
        } else {
            assert(prefixed(prefix@, band_texts(pv, r as nat)) =~= Seq::<Seq<char>>::empty());
        }
        return;
    }
    let part: &[Candidate] = parts[d];
    assert(pv[0].1 == cands_view(part@));
    assert(pv.drop_first() =~= parts_view(parts@, readings).skip(d + 1));
    let m: usize = if (part.len() as u128) <= r { part.len() } else { r as usize + 1 };
    let ghost base = strings_view(results@);
    let mut i: usize = 0;
    assert(band_texts_upto(pv, r as nat, 0) =~= Seq::<Seq<char>>::empty());
    while i < m
        invariant
            0 <= i <= m <= part@.len(),
            m as int <= r + 1,
            d < parts@.len(),
            parts@.len() == parts.len(),
            readings.len() == parts@.len(),
            part@ == parts@[d as int]@,
            pv == parts_view(parts@, readings).skip(d as int),
            pv[0].1 == cands_view(part@),
            pv.drop_first() == parts_view(parts@, readings).skip(d + 1),
            strings_view(results@) == absorb(
                base,
                prefixed(prefix@, band_texts_upto(pv, r as nat, i as nat)),
                cap as nat,
            ),
        decreases m - i,
    {
        let text = append_text(prefix, &part[i].text);
        let ghost c = pv[0].1[i as int].0;
        assert(c == part@[i as int].text@);
        let ghost rest = band_texts(pv.drop_first(), (r - i) as nat);
        emit_band(parts, Ghost(readings), d + 1, r - i as u128, &text, results, cap);
        proof {
            let before = band_texts_upto(pv, r as nat, i as nat);
            assert(band_texts_upto(pv, r as nat, (i + 1) as nat) == before + prefixed(c, rest));
            lemma_prefixed_concat(prefix@, before, prefixed(c, rest));
            lemma_prefixed_twice(prefix@, c, rest);
            lemma_absorb_concat(base, prefixed(prefix@, before), prefixed(prefix@ + c, rest), cap as nat);
        }
        i = i + 1;
    }
    assert(band_texts(pv, r as nat) == band_texts_upto(pv, r as nat, m as nat));
}


// ---------------------------------------------------------------------------
// Combination stream of all splits for one `k`
// ---------------------------------------------------------------------------

/// A valid split of the whole yomi into `k` parts, in part order. Each part is
/// a borrowed slice of the snapshot's candidates for that part's reading key
/// (registration order, index 0 = top priority); nothing is cloned.
pub struct Split<'a> {
    pub parts: Vec<&'a [Candidate]>,
    pub readings: Ghost<Seq<Seq<char>>>,
}

impl<'a> Split<'a> {
    pub open spec fn model(&self) -> Seq<PartModel> {
        parts_view(self.parts@, self.readings@)
    }

    pub open spec fn wf(&self) -> bool {
        self.readings@.len() == self.parts@.len()
    }
}

pub open spec fn splits_model(ss: Seq<Split>) -> Seq<Seq<PartModel>> {
    ss.map_values(|s: Split| s.model())
}

/// The largest index sum a split admits.
pub open spec fn max_rank(parts: Seq<PartModel>) -> nat
    decreases parts.len(),
{
    if parts.len() == 0 {
        0
    } else {
        let l = parts.last().1.len();
        max_rank(parts.drop_last()) + if l > 0 { (l - 1) as nat } else { 0 }
    }
}

/// The largest index sum any of `splits` admits.
pub open spec fn rank_bound(splits: Seq<Seq<PartModel>>) -> nat
    decreases splits.len(),
{
    if splits.len() == 0 {
        0
    } else {
        let a = rank_bound(splits.drop_last());
        let b = max_rank(splits.last());
        if a < b { b } else { a }
    }
}

/// Rank band `r` across all splits, splits in enumeration order.
pub open spec fn band_of_splits(splits: Seq<Seq<PartModel>>, r: nat) -> Seq<Seq<char>>
    decreases splits.len(),
{
    if splits.len() == 0 {
        Seq::empty()
    } else {
        band_of_splits(splits.drop_last(), r) + band_texts(splits.last(), r)
    }
}

/// Rank bands `0 .. bands` across all splits.
pub open spec fn bands_upto(splits: Seq<Seq<PartModel>>, bands: nat) -> Seq<Seq<char>>
    decreases bands,
{
    if bands == 0 {
        Seq::empty()
    } else {
        bands_upto(splits, (bands - 1) as nat) + band_of_splits(splits, (bands - 1) as nat)
    }
}

/// Every combination text of every split for one `k`: rank ascending, then
/// split order, then index tuple.
pub open spec fn texts_of_splits(splits: Seq<Seq<PartModel>>) -> Seq<Seq<char>> {
    bands_upto(splits, rank_bound(splits) + 1)
}

proof fn lemma_prefixed_empty(ts: Seq<Seq<char>>)
    ensures
        prefixed(Seq::<char>::empty(), ts) == ts,
{
    assert forall|i: int| 0 <= i < ts.len() implies prefixed(Seq::<char>::empty(), ts)[i] == ts[i] by {
        assert(Seq::<char>::empty() + ts[i] =~= ts[i]);
    }
    assert(prefixed(Seq::<char>::empty(), ts) =~= ts);
}

proof fn lemma_product_bound(i: int, m: int)
    requires
        0 <= i <= m,
        m <= 0xffff_ffff_ffff_ffff,
    ensures
        i * m <= 0xffff_ffff_ffff_fffe_0000_0000_0000_0001int,
{
    assert(i * m <= m * m) by (nonlinear_arith)
        requires
            0 <= i <= m,
    ;
    assert(m * m <= 0xffff_ffff_ffff_ffff * 0xffff_ffff_ffff_ffff) by (nonlinear_arith)
        requires
            0 <= m <= 0xffff_ffff_ffff_ffff,
    ;
}

fn split_rank(parts: &Vec<&[Candidate]>, Ghost(readings): Ghost<Seq<Seq<char>>>) -> (s: u128)
    requires
        readings.len() == parts@.len(),
    ensures
        s == max_rank(parts_view(parts@, readings)),
        s as int <= parts@.len() * (usize::MAX as int),
{
    let ghost pv = parts_view(parts@, readings);
    let mut s: u128 = 0;
    let mut i: usize = 0;
    assert(pv.take(0) =~= Seq::<PartModel>::empty());
    while i < parts.len()
        invariant
            0 <= i <= parts@.len(),
            parts@.len() == parts.len(),
            pv == parts_view(parts@, readings),
            s == max_rank(pv.take(i as int)),
            s as int <= i * (usize::MAX as int),
        decreases parts.len() - i,
    {
        assert(pv.take(i + 1).drop_last() =~= pv.take(i as int));
        assert(pv.take(i + 1).last().1.len() == parts@[i as int]@.len());
        let l: usize = parts[i].len();
        proof {
            lemma_product_bound(i + 1, usize::MAX as int);
            assert((i + 1) * (usize::MAX as int) == i * (usize::MAX as int) + usize::MAX as int) by (nonlinear_arith);
        }
        if l > 0 {
            s = s + (l - 1) as u128;
        }
        i = i + 1;
    }
    assert(pv.take(parts@.len() as int) =~= pv);
    s
}

proof fn lemma_bands_split(splits: Seq<Seq<PartModel>>, a: nat, b: nat)
    requires
        a <= b,
    ensures
        bands_upto(splits, b) == bands_upto(splits, a) + bands_upto_from(splits, a, b),
    decreases b - a,
{
    if a < b {
        lemma_bands_split(splits, a, (b - 1) as nat);
        assert(bands_upto(splits, a) + bands_upto_from(splits, a, (b - 1) as nat) + band_of_splits(
            splits,
            (b - 1) as nat,
        ) =~= bands_upto(splits, a) + (bands_upto_from(splits, a, (b - 1) as nat) + band_of_splits(
            splits,
            (b - 1) as nat,
        )));
    } else {
        assert(bands_upto(splits, a) + Seq::<Seq<char>>::empty() =~= bands_upto(splits, a));
    }
}

/// Rank bands `a .. b` across all splits.
pub open spec fn bands_upto_from(splits: Seq<Seq<PartModel>>, a: nat, b: nat) -> Seq<Seq<char>>
    decreases b,
{
    if b <= a {
        Seq::empty()
    } else {
        bands_upto_from(splits, a, (b - 1) as nat) + band_of_splits(splits, (b - 1) as nat)
    }
}

/// Within a fixed `k`, enumerate combinations across all `splits` in the
/// required total order and append distinct output texts to `results` until
/// the cap is hit.
fn collect_for_k(splits: &Vec<Split>, cap: usize, results: &mut Vec<String>)
    requires
        forall|j: int| 0 <= j < splits@.len() ==> (#[trigger] splits@[j]).wf(),
    ensures
        strings_view(final(results)@) == absorb(
            strings_view(old(results)@),
            texts_of_splits(splits_model(splits@)),
            cap as nat,
        ),
{
    let ghost sm = splits_model(splits@);
    let ghost base = strings_view(results@);
    // The largest rank any split admits.
    let mut bound: u128 = 0;
    let mut j: usize = 0;
    assert(sm.take(0) =~= Seq::<Seq<PartModel>>::empty());
    while j < splits.len()
        invariant
            0 <= j <= splits@.len(),
            sm == splits_model(splits@),
            forall|q: int| 0 <= q < splits@.len() ==> (#[trigger] splits@[q]).wf(),
            bound == rank_bound(sm.take(j as int)),
            bound as int <= 0xffff_ffff_ffff_fffe_0000_0000_0000_0001int,
        decreases splits.len() - j,
    {
        assert(sm.take(j + 1).drop_last() =~= sm.take(j as int));
        assert(sm.take(j + 1).last() == splits@[j as int].model());
        let plen: usize = splits[j].parts.len();
        let sr = split_rank(&splits[j].parts, Ghost(splits@[j as int].readings@));
        proof {
            lemma_product_bound(plen as int, usize::MAX as int);
        }
        if bound < sr {
            bound = sr;
        }
        j = j + 1;
    }
    assert(sm.take(splits@.len() as int) =~= sm);
    let mut r: u128 = 0;
    assert(strings_view(results@) == absorb(base, bands_upto(sm, 0), cap as nat));
    while r <= bound && results.len() < cap
        invariant
            r <= bound + 1,
            bound == rank_bound(sm),
            bound as int <= 0xffff_ffff_ffff_fffe_0000_0000_0000_0001int,
            sm == splits_model(splits@),
            forall|q: int| 0 <= q < splits@.len() ==> (#[trigger] splits@[q]).wf(),
            strings_view(results@) == absorb(base, bands_upto(sm, r as nat), cap as nat),
        decreases bound + 1 - r,
    {
        let ghost at_band = strings_view(results@);
        let mut q: usize = 0;
        let empty = String::new();
        assert(band_of_splits(sm.take(0), r as nat) =~= Seq::<Seq<char>>::empty());
        while q < splits.len()
            invariant
                0 <= q <= splits@.len(),
                sm == splits_model(splits@),
                forall|q2: int| 0 <= q2 < splits@.len() ==> (#[trigger] splits@[q2]).wf(),
                empty@ == Seq::<char>::empty(),
                strings_view(results@) == absorb(at_band, band_of_splits(sm.take(q as int), r as nat), cap as nat),
            decreases splits.len() - q,
        {
            let ghost before = strings_view(results@);
            let sp = &splits[q];
            emit_band(&sp.parts, Ghost(sp.readings@), 0, r, &empty, results, cap);
            proof {
                assert(sp.model().skip(0) =~= sp.model());
                lemma_prefixed_empty(band_texts(sp.model(), r as nat));
                assert(sm.take(q + 1).drop_last() =~= sm.take(q as int));
                assert(sm.take(q + 1).last() == sp.model());
                lemma_absorb_concat(at_band, band_of_splits(sm.take(q as int), r as nat), band_texts(sp.model(), r as nat), cap as nat);
            }
            q = q + 1;
        }
        proof {
            assert(sm.take(splits@.len() as int) =~= sm);
            lemma_absorb_concat(base, bands_upto(sm, r as nat), band_of_splits(sm, r as nat), cap as nat);
        }
        r = r + 1;
    }
    proof {
        let total = rank_bound(sm) + 1;
        lemma_bands_split(sm, r as nat, total);
        lemma_absorb_concat(base, bands_upto(sm, r as nat), bands_upto_from(sm, r as nat, total), cap as nat);
        if r <= bound {
            lemma_absorb_full(strings_view(results@), bands_upto_from(sm, r as nat, total), cap as nat);
        } else {
            assert(bands_upto_from(sm, r as nat, total) =~= Seq::<Seq<char>>::empty());
        }
    }
}


// ---------------------------------------------------------------------------
// Split enumeration
// ---------------------------------------------------------------------------

/// The prefix matches the last part draws from: okuri-ari readings for the
/// okurigana letter when there is one, okuri-nashi readings otherwise.
pub open spec fn last_part_matches(
    snap: &DictionarySnapshot,
    chars: Seq<char>,
    start: int,
    okuri: Option<char>,
) -> Seq<MatchModel> {
    match okuri {
        Some(c) => snap.spec_okuri_ari_prefix_matches(chars, start, c),
        None => snap.spec_prefix_matches(chars, start),
    }
}

/// The candidates of the last part's reading.
pub open spec fn last_part_candidates(
    snap: &DictionarySnapshot,
    okuri: Option<char>,
    r: Seq<char>,
) -> Seq<CandModel> {
    match okuri {
        Some(_) => snap.spec_okuri_ari_candidates(r),
        None => snap.spec_candidates(r),
    }
}

/// One-part splits of `chars[start..]` from the matches `ms`: the match must
/// reach the end of the yomi and have candidates.
pub open spec fn last_part_splits(
    snap: &DictionarySnapshot,
    n: int,
    start: int,
    okuri: Option<char>,
    ms: Seq<MatchModel>,
) -> Seq<Seq<PartModel>>
    decreases ms.len(),
{
    if ms.len() == 0 {
        Seq::empty()
    } else {
        let prev = last_part_splits(snap, n, start, okuri, ms.drop_last());
        let m = ms.last();
        let c = last_part_candidates(snap, okuri, m.1);
        if start + m.0 == n && c.len() > 0 {
            prev.push(seq![(m.1, c)])
        } else {
            prev
        }
    }
}

/// Every split of `chars[start..]` into exactly `parts_left` parts, in
/// enumeration order: boundaries are chosen left to right in the order the
/// snapshot returns prefix matches.
pub open spec fn splits_from(
    snap: &DictionarySnapshot,
    chars: Seq<char>,
    parts_left: nat,
    start: int,
    okuri: Option<char>,
) -> Seq<Seq<PartModel>>
    decreases parts_left, 1nat, 0nat,
{
    if parts_left <= 1 {
        last_part_splits(
            snap,
            chars.len() as int,
            start,
            okuri,
            last_part_matches(snap, chars, start, okuri),
        )
    } else {
        mid_part_splits(snap, chars, parts_left, start, okuri, snap.spec_prefix_matches(chars, start))
    }
}

/// The splits whose first (okuri-nashi) part is one of the matches `ms`.
pub open spec fn mid_part_splits(
    snap: &DictionarySnapshot,
    chars: Seq<char>,
    parts_left: nat,
    start: int,
    okuri: Option<char>,
    ms: Seq<MatchModel>,
) -> Seq<Seq<PartModel>>
    decreases parts_left, 0nat, ms.len(),
{
    if parts_left <= 1 || ms.len() == 0 {
        Seq::empty()
    } else {
        let prev = mid_part_splits(snap, chars, parts_left, start, okuri, ms.drop_last());
        let m = ms.last();
        let next = start + m.0;
        let c = snap.spec_candidates(m.1);
        if next >= chars.len() || chars.len() - next < parts_left - 1 || c.len() == 0 {
            prev
        } else {
            prev + with_parts_before(
                seq![(m.1, c)],
                splits_from(snap, chars, (parts_left - 1) as nat, next, okuri),
            )
        }
    }
}

/// Every split of `ss` with the parts `ps` in front.
pub open spec fn with_parts_before(ps: Seq<PartModel>, ss: Seq<Seq<PartModel>>) -> Seq<Seq<PartModel>> {
    ss.map_values(|s: Seq<PartModel>| ps + s)
}

/// Every split of the whole yomi into exactly `k` parts.
pub open spec fn splits_of(snap: &DictionarySnapshot, chars: Seq<char>, k: nat, okuri: Option<char>) -> Seq<
    Seq<PartModel>,
> {
    splits_from(snap, chars, k, 0, okuri)
}

proof fn lemma_with_parts_before_twice(p: Seq<PartModel>, q: Seq<PartModel>, ss: Seq<Seq<PartModel>>)
    ensures
        with_parts_before(p, with_parts_before(q, ss)) == with_parts_before(p + q, ss),
{
    assert forall|i: int| 0 <= i < ss.len() implies with_parts_before(p, with_parts_before(q, ss))[i]
        == with_parts_before(p + q, ss)[i] by {
        assert(p + (q + ss[i]) =~= (p + q) + ss[i]);
    }
    assert(with_parts_before(p, with_parts_before(q, ss)) =~= with_parts_before(p + q, ss));
}

proof fn lemma_with_parts_before_concat(p: Seq<PartModel>, xs: Seq<Seq<PartModel>>, ys: Seq<Seq<PartModel>>)
    ensures
        with_parts_before(p, xs + ys) == with_parts_before(p, xs) + with_parts_before(p, ys),
{
    assert(with_parts_before(p, xs + ys) =~= with_parts_before(p, xs) + with_parts_before(p, ys));
}

fn copy_parts<'a>(v: &Vec<&'a [Candidate]>) -> (r: Vec<&'a [Candidate]>)
    ensures
        r@ == v@,
{
    let mut r: Vec<&'a [Candidate]> = Vec::new();
    let mut i: usize = 0;
    while i < v.len()
        invariant
            0 <= i <= v@.len(),
            r@ == v@.take(i as int),
        decreases v.len() - i,
    {
        r.push(v[i]);
        assert(r@ =~= v@.take(i + 1));
        i = i + 1;
    }
    assert(v@.take(v@.len() as int) =~= v@);
    r
}

/// Recursive depth-first split builder. `depth` parts have been fixed so far
/// (in `current`); the next part starts at `start`. Readings are pushed in
/// dictionary-returned order, so the split list is deterministic.
fn extend_split<'a>(
    chars: &[char],
    k: usize,
    depth: usize,
    start: usize,
    snapshot: &'a DictionarySnapshot,
    okuri_char: Option<char>,
    current: &mut Vec<&'a [Candidate]>,
    Ghost(cur_readings): Ghost<Seq<Seq<char>>>,
    out: &mut Vec<Split<'a>>,
)
    requires
        depth < k,
        cur_readings.len() == old(current)@.len(),
        forall|j: int| 0 <= j < old(out)@.len() ==> (#[trigger] old(out)@[j]).wf(),
    ensures
        final(current)@ == old(current)@,
        forall|j: int| 0 <= j < final(out)@.len() ==> (#[trigger] final(out)@[j]).wf(),
        splits_model(final(out)@) == splits_model(old(out)@) + with_parts_before(
            parts_view(old(current)@, cur_readings),
            splits_from(snapshot, chars@, (k - depth) as nat, start as int, okuri_char),
        ),
    decreases k - depth,
{
    let n: usize = chars.len();
    let ghost cur = parts_view(current@, cur_readings);
    let ghost out0 = splits_model(out@);
    if depth + 1 == k {
        // The last part must consume exactly the remainder of the yomi. Only
        // this part may draw from the okuri-ari bucket.
        let matches = match okuri_char {
            Some(c) => snapshot.okuri_ari_prefix_matches(chars, start, c),
            None => snapshot.prefix_matches(chars, start),
        };
        let ghost mv = matches_view(matches@);
        assert(mv == last_part_matches(snapshot, chars@, start as int, okuri_char));
        let mut j: usize = 0;
        assert(last_part_splits(snapshot, n as int, start as int, okuri_char, mv.take(0)) =~= Seq::<Seq<PartModel>>::empty());
        assert(with_parts_before(cur, Seq::<Seq<PartModel>>::empty()) =~= Seq::<Seq<PartModel>>::empty());
        assert(out0 + Seq::<Seq<PartModel>>::empty() =~= out0);
        while j < matches.len()
            invariant
                0 <= j <= matches@.len(),
                n == chars@.len(),
                mv == matches_view(matches@),
                current@ == old(current)@,
                cur == parts_view(current@, cur_readings),
                cur_readings.len() == current@.len(),
                forall|q: int| 0 <= q < out@.len() ==> (#[trigger] out@[q]).wf(),
                splits_model(out@) == out0 + with_parts_before(
                    cur,
                    last_part_splits(snapshot, n as int, start as int, okuri_char, mv.take(j as int)),
                ),
            decreases matches.len() - j,
        {
            let m = &matches[j];
            assert(mv.take(j + 1).drop_last() =~= mv.take(j as int));
            assert(mv.take(j + 1).last() == m@);
            let ghost prev = last_part_splits(snapshot, n as int, start as int, okuri_char, mv.take(j as int));
            if start <= n && m.length == n - start {
                let rc = chars_of(m.reading.as_str());
                let cands: &'a [Candidate] = match okuri_char {
                    Some(_) => snapshot.okuri_ari_candidates_of_chars(rc.as_slice()),
                    None => snapshot.candidates_of_chars(rc.as_slice()),
                };
                if cands.len() > 0 {
                    let ghost before = out@;
                    let ghost new_readings = cur_readings.push(m.reading@);
                    current.push(cands);
                    let parts = copy_parts(current);
                    current.pop();
                    let sp = Split { parts, readings: Ghost(new_readings) };
                    proof {
                        assert(sp.model() =~= cur + seq![(m.reading@, cands_view(cands@))]);
                        assert(cands_view(cands@).len() > 0);
                        lemma_with_parts_before_concat(cur, prev, seq![seq![(m.reading@, cands_view(cands@))]]);
                    }
                    out.push(sp);
                    proof {
                        assert(current@ =~= old(current)@);
                        assert(splits_model(out@) =~= splits_model(before).push(sp.model()));
                        assert(with_parts_before(cur, prev.push(seq![(m.reading@, cands_view(cands@))]))
                            =~= with_parts_before(cur, prev).push(sp.model()));
                    }
                }
            }
            j = j + 1;
        }
        assert(mv.take(matches@.len() as int) =~= mv);
        return;
    }
    // Non-last parts are always okuri-nashi and must leave at least one char
    // for each of the remaining (k - depth - 1) parts.
    let remaining_parts_after: usize = k - depth - 1;
    let matches = snapshot.prefix_matches(chars, start);
    let ghost mv = matches_view(matches@);
    let ghost pl = (k - depth) as nat;
    let mut j: usize = 0;
    assert(mid_part_splits(snapshot, chars@, pl, start as int, okuri_char, mv.take(0)) =~= Seq::<Seq<PartModel>>::empty());
    assert(with_parts_before(cur, Seq::<Seq<PartModel>>::empty()) =~= Seq::<Seq<PartModel>>::empty());
    assert(out0 + Seq::<Seq<PartModel>>::empty() =~= out0);
    while j < matches.len()
        invariant
            0 <= j <= matches@.len(),
            n == chars@.len(),
            depth + 1 < k,
            pl == k - depth,
            remaining_parts_after == k - depth - 1,
            mv == matches_view(matches@),
            current@ == old(current)@,
            cur == parts_view(current@, cur_readings),
            cur_readings.len() == current@.len(),
            forall|q: int| 0 <= q < out@.len() ==> (#[trigger] out@[q]).wf(),
            splits_model(out@) == out0 + with_parts_before(
                cur,
                mid_part_splits(snapshot, chars@, pl, start as int, okuri_char, mv.take(j as int)),
            ),
        decreases matches.len() - j,
    {
        let m = &matches[j];
        assert(mv.take(j + 1).drop_last() =~= mv.take(j as int));
        assert(mv.take(j + 1).last() == m@);
        let ghost prev = mid_part_splits(snapshot, chars@, pl, start as int, okuri_char, mv.take(j as int));
        if start <= n && m.length < n - start {
            let next_start: usize = start + m.length;
            if n - next_start >= remaining_parts_after {
                let rc = chars_of(m.reading.as_str());
                let cands: &'a [Candidate] = snapshot.candidates_of_chars(rc.as_slice());
                if cands.len() > 0 {
                    let ghost p = seq![(m.reading@, cands_view(cands@))];
                    let ghost before = splits_model(out@);
                    current.push(cands);
                    extend_split(
                        chars,
                        k,
                        depth + 1,
                        next_start,
                        snapshot,
                        okuri_char,
                        current,
                        Ghost(cur_readings.push(m.reading@)),
                        out,
                    );
                    current.pop();
                    proof {
                        let sub = splits_from(snapshot, chars@, (k - depth - 1) as nat, next_start as int, okuri_char);
                        assert(parts_view(old(current)@.push(cands), cur_readings.push(m.reading@)) =~= cur + p);
                        assert(current@ =~= old(current)@);
                        lemma_with_parts_before_twice(cur, p, sub);
                        lemma_with_parts_before_concat(cur, prev, with_parts_before(p, sub));
                        assert(out0 + with_parts_before(cur, prev) + with_parts_before(cur + p, sub)
                            =~= out0 + (with_parts_before(cur, prev) + with_parts_before(cur + p, sub)));
                    }
                }
            }
        }
        j = j + 1;
    }
    assert(mv.take(matches@.len() as int) =~= mv);
}


/// Enumerate every valid split of the whole yomi into exactly `k` parts.
///
/// Boundaries are chosen left-to-right in the order `prefix_matches` /
/// `okuri_ari_prefix_matches` return readings, which fixes the split
/// enumeration order. A split is kept only if it tiles the whole yomi and
/// every part has at least one candidate.
fn enumerate_splits<'a>(
    chars: &[char],
    k: usize,
    snapshot: &'a DictionarySnapshot,
    okuri_char: Option<char>,
) -> (r: Vec<Split<'a>>)
    requires
        k >= 1,
    ensures
        forall|j: int| 0 <= j < r@.len() ==> (#[trigger] r@[j]).wf(),
        splits_model(r@) == splits_of(snapshot, chars@, k as nat, okuri_char),
{
    let mut splits: Vec<Split<'a>> = Vec::new();
    let mut current: Vec<&'a [Candidate]> = Vec::new();
    assert(splits_model(splits@) =~= Seq::<Seq<PartModel>>::empty());
    extend_split(chars, k, 0, 0, snapshot, okuri_char, &mut current, Ghost(Seq::empty()), &mut splits);
    proof {
        let ss = splits_of(snapshot, chars@, k as nat, okuri_char);
        assert(parts_view(Seq::<&[Candidate]>::empty(), Seq::<Seq<char>>::empty()) =~= Seq::<PartModel>::empty());
        assert forall|i: int| 0 <= i < ss.len() implies with_parts_before(Seq::<PartModel>::empty(), ss)[i] == ss[i] by {
            assert(Seq::<PartModel>::empty() + ss[i] =~= ss[i]);
        }
        assert(with_parts_before(Seq::<PartModel>::empty(), ss) =~= ss);
        assert(Seq::<Seq<PartModel>>::empty() + ss =~= ss);
    }
    splits
}

// ---------------------------------------------------------------------------
// The whole run
// ---------------------------------------------------------------------------

/// Combination texts for part counts `2 .. kk`, fewer parts first.
pub open spec fn streams_upto(snap: &DictionarySnapshot, chars: Seq<char>, okuri: Option<char>, kk: nat) -> Seq<
    Seq<char>,
>
    decreases kk,
{
    if kk <= 2 {
        Seq::empty()
    } else {
        streams_upto(snap, chars, okuri, (kk - 1) as nat) + texts_of_splits(
            splits_of(snap, chars, (kk - 1) as nat, okuri),
        )
    }
}

/// Combination texts for part counts `a .. b`.
pub open spec fn streams_between(
    snap: &DictionarySnapshot,
    chars: Seq<char>,
    okuri: Option<char>,
    a: nat,
    b: nat,
) -> Seq<Seq<char>>
    decreases b,
{
    if b <= a {
        Seq::empty()
    } else {
        streams_between(snap, chars, okuri, a, (b - 1) as nat) + texts_of_splits(
            splits_of(snap, chars, (b - 1) as nat, okuri),
        )
    }
}

proof fn lemma_streams_split(snap: &DictionarySnapshot, chars: Seq<char>, okuri: Option<char>, a: nat, b: nat)
    requires
        2 <= a <= b,
    ensures
        streams_upto(snap, chars, okuri, b) == streams_upto(snap, chars, okuri, a) + streams_between(
            snap,
            chars,
            okuri,
            a,
            b,
        ),
    decreases b - a,
{
    if a < b {
        lemma_streams_split(snap, chars, okuri, a, (b - 1) as nat);
        let t = texts_of_splits(splits_of(snap, chars, (b - 1) as nat, okuri));
        assert(streams_upto(snap, chars, okuri, a) + streams_between(snap, chars, okuri, a, (b - 1) as nat) + t
            =~= streams_upto(snap, chars, okuri, a) + (streams_between(snap, chars, okuri, a, (b - 1) as nat) + t));
    } else {
        assert(streams_upto(snap, chars, okuri, a) + Seq::<Seq<char>>::empty() =~= streams_upto(snap, chars, okuri, a));
    }
}

/// Every combination text of every split of `chars` into two or more parts:
/// fewer parts first; within a part count, rank band, split order, index
/// tuple.
pub open spec fn compound_stream(snap: &DictionarySnapshot, chars: Seq<char>, okuri: Option<char>) -> Seq<
    Seq<char>,
> {
    streams_upto(snap, chars, okuri, chars.len() + 1)
}

/// The compounds `generate` returns: the first `cap` distinct texts of the
/// compound stream.
pub open spec fn generated(
    snap: &DictionarySnapshot,
    chars: Seq<char>,
    cap: nat,
    okuri: Option<char>,
) -> Seq<Seq<char>> {
    first_distinct(compound_stream(snap, chars, okuri), cap)
}

/// The okurigana letter a request carries: the first character of the
/// marker, if any.
pub open spec fn okuri_letter(okuri: Option<&str>) -> Option<char> {
    match okuri {
        Some(s) => if s@.len() > 0 { Some(s@[0]) } else { None },
        None => None,
    }
}

#[derive(Debug, Clone, Copy)]
pub struct CompoundGeneratorConfig {
    pub max_final_candidates: usize,
}

impl CompoundGeneratorConfig {
    pub const DEFAULT_MAX_FINAL_CANDIDATES: usize = 10;

    pub fn new(max_final_candidates: usize) -> (c: Self)
        ensures
            c.max_final_candidates == max_final_candidates,
    {
        Self { max_final_candidates }
    }
}

impl Default for CompoundGeneratorConfig {
    fn default() -> (c: Self)
        ensures
            c.max_final_candidates == 10,
    {
        Self { max_final_candidates: Self::DEFAULT_MAX_FINAL_CANDIDATES }
    }
}

/// Generate compound candidates for `yomi`, best-first, capped at
/// `config.max_final_candidates` distinct output texts.
///
/// `okuri_prefix`: when it holds a letter, every split's last part must be an
/// okuri-ari key whose hiragana stem ends exactly at the end of the yomi, and
/// whose trailing ASCII letter equals that letter; all other parts are
/// okuri-nashi. Otherwise every part is okuri-nashi.
pub fn generate(
    yomi: &str,
    snapshot: &DictionarySnapshot,
    config: CompoundGeneratorConfig,
    okuri_prefix: Option<&str>,
) -> (r: Vec<String>)
    ensures
        strings_view(r@) == generated(
            snapshot,
            yomi@,
            config.max_final_candidates as nat,
            okuri_letter(okuri_prefix),
        ),
{
    let chars = chars_of(yomi);
    let n: usize = chars.len();
    let cap: usize = config.max_final_candidates;
    let okuri_char: Option<char> = match okuri_prefix {
        Some(s) => {
            let cs = chars_of(s);
            if cs.len() > 0 { Some(cs[0]) } else { None }
        },
        None => None,
    };
    let mut results: Vec<String> = Vec::new();
    assert(strings_view(results@) =~= Seq::<Seq<char>>::empty());
    // A compound by definition requires at least two reading parts.
    if n < 2 || cap == 0 {
        proof {
            if n < 2 {
                assert(compound_stream(snapshot, chars@, okuri_char) =~= Seq::<Seq<char>>::empty());
            } else {
                lemma_absorb_full(Seq::empty(), compound_stream(snapshot, chars@, okuri_char), 0);
            }
        }
        return results;
    }
    // Primary axis: ascending k (number of parts). The largest possible k is
    // n (every part one char). Advance only while the deduped output is still
    // short of the cap.
    // `done` part counts (`2 ..= done`) have been processed.
    let mut done: usize = 1;
    while done < n && results.len() < cap
        invariant
            1 <= done <= n,
            n == chars@.len(),
            chars@ == yomi@,
            okuri_char == okuri_letter(okuri_prefix),
            strings_view(results@) == absorb(
                Seq::empty(),
                streams_upto(snapshot, chars@, okuri_char, (done + 1) as nat),
                cap as nat,
            ),
        decreases n - done,
    {
        let k: usize = done + 1;
        let splits = enumerate_splits(chars.as_slice(), k, snapshot, okuri_char);
        collect_for_k(&splits, cap, &mut results);
        proof {
            lemma_absorb_concat(
                Seq::empty(),
                streams_upto(snapshot, chars@, okuri_char, k as nat),
                texts_of_splits(splits_of(snapshot, chars@, k as nat, okuri_char)),
                cap as nat,
            );
        }
        done = k;
    }
    proof {
        let k = (done + 1) as nat;
        lemma_streams_split(snapshot, chars@, okuri_char, k, (n + 1) as nat);
        let rest = streams_between(snapshot, chars@, okuri_char, k, (n + 1) as nat);
        lemma_absorb_concat(Seq::empty(), streams_upto(snapshot, chars@, okuri_char, k), rest, cap as nat);
        if done < n {
            lemma_absorb_full(strings_view(results@), rest, cap as nat);
        } else {
            assert(rest =~= Seq::<Seq<char>>::empty());
        }
    }
    results
}

proof fn lemma_absorb_distinct(acc: Seq<Seq<char>>, xs: Seq<Seq<char>>, cap: nat)
    requires
        acc.no_duplicates(),
    ensures
        absorb(acc, xs, cap).no_duplicates(),
        forall|i: int| 0 <= i < absorb(acc, xs, cap).len() ==> acc.contains(
            #[trigger] absorb(acc, xs, cap)[i],
        ) || xs.contains(absorb(acc, xs, cap)[i]),
    decreases xs.len(),
{
    if xs.len() > 0 {
        let ys = xs.drop_last();
        lemma_absorb_distinct(acc, ys, cap);
        let p = absorb(acc, ys, cap);
        assert forall|i: int| 0 <= i < p.len() && !acc.contains(#[trigger] p[i]) implies xs.contains(p[i]) by {
            let j = choose|j: int| 0 <= j < ys.len() && ys[j] == p[i];
            assert(xs[j] == p[i]);
        }
        if !(p.len() >= cap || p.contains(xs.last())) {
            let q = p.push(xs.last());
            assert forall|i: int, j: int| 0 <= i < j < q.len() implies q[i] != q[j] by {
                if j == p.len() {
                    assert(p[i] != xs.last());
                }
            }
            assert(xs.contains(q[q.len() - 1])) by {
                assert(xs[xs.len() - 1] == q[q.len() - 1]);
            }
        }
    }
}

proof fn lemma_absorb_cap_prefix(acc: Seq<Seq<char>>, xs: Seq<Seq<char>>, c1: nat, c2: nat)
    requires
        acc.len() <= c1 <= c2,
    ensures
        absorb(acc, xs, c1).len() <= c1,
        absorb(acc, xs, c1).len() <= absorb(acc, xs, c2).len(),
        absorb(acc, xs, c1) == absorb(acc, xs, c2).take(absorb(acc, xs, c1).len() as int),
        absorb(acc, xs, c1).len() < c1 ==> absorb(acc, xs, c1) == absorb(acc, xs, c2),
    decreases xs.len(),
{
    if xs.len() == 0 {
        assert(acc.take(acc.len() as int) =~= acc);
    } else {
        lemma_absorb_cap_prefix(acc, xs.drop_last(), c1, c2);
        lemma_absorb_len(acc, xs.drop_last(), c2);
        let p1 = absorb(acc, xs.drop_last(), c1);
        let p2 = absorb(acc, xs.drop_last(), c2);
        if p1.len() < c1 {
            assert(p1 == p2);
        } else {
            assert(p2.take(p1.len() as int) == p1);
            assert(p2.push(xs.last()).take(p1.len() as int) =~= p2.take(p1.len() as int));
        }
    }
}

/// `generate` never returns more than the cap, and never the same text twice.
pub proof fn law_generated_distinct_and_capped(
    snap: &DictionarySnapshot,
    chars: Seq<char>,
    cap: nat,
    okuri: Option<char>,
)
    ensures
        generated(snap, chars, cap, okuri).len() <= cap,
        generated(snap, chars, cap, okuri).no_duplicates(),
{
    lemma_absorb_len(Seq::empty(), compound_stream(snap, chars, okuri), cap);
    lemma_absorb_distinct(Seq::empty(), compound_stream(snap, chars, okuri), cap);
}

/// Every text `generate` returns is a compound of the yomi: the
/// concatenation of one candidate per part of a split into two or more
/// dictionary readings.
pub proof fn law_generated_are_compounds(
    snap: &DictionarySnapshot,
    chars: Seq<char>,
    cap: nat,
    okuri: Option<char>,
)
    ensures
        forall|i: int|
            0 <= i < generated(snap, chars, cap, okuri).len() ==> compound_stream(snap, chars, okuri).contains(
                #[trigger] generated(snap, chars, cap, okuri)[i],
            ),
{
    lemma_absorb_distinct(Seq::empty(), compound_stream(snap, chars, okuri), cap);
}

/// Raising the cap only appends: the answer under a smaller cap is a prefix
/// of the answer under a larger one, and the whole of it when the smaller
/// cap was not reached.
pub proof fn law_generated_cap_prefix(
    snap: &DictionarySnapshot,
    chars: Seq<char>,
    c1: nat,
    c2: nat,
    okuri: Option<char>,
)
    requires
        c1 <= c2,
    ensures
        generated(snap, chars, c1, okuri) == generated(snap, chars, c2, okuri).take(
            generated(snap, chars, c1, okuri).len() as int,
        ),
        generated(snap, chars, c1, okuri).len() < c1 ==> generated(snap, chars, c1, okuri) == generated(
            snap,
            chars,
            c2,
            okuri,
        ),
{
    lemma_absorb_cap_prefix(Seq::empty(), compound_stream(snap, chars, okuri), c1, c2);
}

// ---------------------------------------------------------------------------
// Completeness of the combination stream
// ---------------------------------------------------------------------------

/// `idx` picks one candidate of every part of `parts`.
pub open spec fn fits(parts: Seq<PartModel>, idx: Seq<int>) -> bool {
    &&& idx.len() == parts.len()
    &&& forall|p: int| 0 <= p < parts.len() ==> 0 <= #[trigger] idx[p] < parts[p].1.len()
}

/// The text of the choice `idx`: the chosen candidates' texts in part order.
pub open spec fn choice_text(parts: Seq<PartModel>, idx: Seq<int>) -> Seq<char>
    decreases parts.len(),
{
    if parts.len() == 0 || idx.len() == 0 {
        Seq::empty()
    } else {
        parts[0].1[idx[0]].0 + choice_text(parts.drop_first(), idx.drop_first())
    }
}

/// The sum of the chosen candidate indices.
pub open spec fn index_sum(idx: Seq<int>) -> int
    decreases idx.len(),
{
    if idx.len() == 0 {
        0
    } else {
        idx[0] + index_sum(idx.drop_first())
    }
}

proof fn lemma_fits_rest(parts: Seq<PartModel>, idx: Seq<int>)
    requires
        fits(parts, idx),
        parts.len() > 0,
    ensures
        fits(parts.drop_first(), idx.drop_first()),
{
    assert forall|p: int| 0 <= p < parts.drop_first().len() implies 0 <= #[trigger] idx.drop_first()[p]
        < parts.drop_first()[p].1.len() by {
        assert(idx.drop_first()[p] == idx[p + 1]);
        assert(parts.drop_first()[p] == parts[p + 1]);
    }
}

proof fn lemma_index_sum_nonneg(parts: Seq<PartModel>, idx: Seq<int>)
    requires
        fits(parts, idx),
    ensures
        index_sum(idx) >= 0,
    decreases parts.len(),
{
    if parts.len() > 0 {
        lemma_fits_rest(parts, idx);
        lemma_index_sum_nonneg(parts.drop_first(), idx.drop_first());
        assert(0 <= idx[0]);
    }
}

proof fn lemma_contains_concat(a: Seq<Seq<char>>, b: Seq<Seq<char>>, x: Seq<char>)
    requires
        a.contains(x) || b.contains(x),
    ensures
        (a + b).contains(x),
{
    if a.contains(x) {
        let i = choose|i: int| 0 <= i < a.len() && a[i] == x;
        assert((a + b)[i] == x);
    } else {
        let i = choose|i: int| 0 <= i < b.len() && b[i] == x;
        assert((a + b)[a.len() + i] == x);
    }
}

proof fn lemma_band_upto_has(parts: Seq<PartModel>, r: nat, m: nat, i: nat, x: Seq<char>)
    requires
        parts.len() > 0,
        i < m <= r + 1,
        prefixed(parts[0].1[i as int].0, band_texts(parts.drop_first(), (r - i) as nat)).contains(x),
    ensures
        band_texts_upto(parts, r, m).contains(x),
    decreases m,
{
    let j = (m - 1) as nat;
    let last = prefixed(parts[0].1[j as int].0, band_texts(parts.drop_first(), (r - j) as nat));
    assert(band_texts_upto(parts, r, m) == band_texts_upto(parts, r, j) + last);
    if i == j {
        lemma_contains_concat(band_texts_upto(parts, r, j), last, x);
    } else {
        lemma_band_upto_has(parts, r, j, i, x);
        lemma_contains_concat(band_texts_upto(parts, r, j), last, x);
    }
}

/// Every choice of one candidate per part is in the rank band of its index
/// sum.
proof fn lemma_band_has_choice(parts: Seq<PartModel>, idx: Seq<int>)
    requires
        fits(parts, idx),
    ensures
        index_sum(idx) >= 0,
        band_texts(parts, index_sum(idx) as nat).contains(choice_text(parts, idx)),
    decreases parts.len(),
{
    lemma_index_sum_nonneg(parts, idx);
    if parts.len() == 0 {
        assert(band_texts(parts, 0)[0] == choice_text(parts, idx));
    } else {
        let rest = parts.drop_first();
        let ridx = idx.drop_first();
        lemma_fits_rest(parts, idx);
        lemma_band_has_choice(rest, ridx);
        let i = idx[0];
        assert(0 <= i < parts[0].1.len());
        let r = index_sum(idx) as nat;
        let c = parts[0].1[i].0;
        let inner = band_texts(rest, index_sum(ridx) as nat);
        let t = choice_text(rest, ridx);
        let w = choose|w: int| 0 <= w < inner.len() && inner[w] == t;
        assert(prefixed(c, inner)[w] == c + t);
        assert((r - i) as nat == index_sum(ridx) as nat);
        let m = if parts[0].1.len() < r + 1 { parts[0].1.len() } else { r + 1 };
        lemma_band_upto_has(parts, r, m, i as nat, c + t);
    }
}

proof fn lemma_max_rank_first(parts: Seq<PartModel>)
    requires
        parts.len() > 0,
    ensures
        max_rank(parts) == (if parts[0].1.len() > 0 { (parts[0].1.len() - 1) as nat } else { 0nat })
            + max_rank(parts.drop_first()),
    decreases parts.len(),
{
    if parts.len() == 1 {
        assert(parts.drop_last() =~= Seq::<PartModel>::empty());
        assert(parts.drop_first() =~= Seq::<PartModel>::empty());
    } else {
        lemma_max_rank_first(parts.drop_last());
        assert(parts.drop_last().drop_first() =~= parts.drop_first().drop_last());
        assert(parts.drop_last()[0] == parts[0]);
        assert(parts.drop_first().last() == parts.last());
    }
}

proof fn lemma_index_sum_bound(parts: Seq<PartModel>, idx: Seq<int>)
    requires
        fits(parts, idx),
    ensures
        index_sum(idx) <= max_rank(parts),
    decreases parts.len(),
{
    if parts.len() > 0 {
        lemma_fits_rest(parts, idx);
        lemma_index_sum_bound(parts.drop_first(), idx.drop_first());
        lemma_max_rank_first(parts);
        assert(0 <= idx[0] < parts[0].1.len());
    }
}

proof fn lemma_rank_bound_covers(splits: Seq<Seq<PartModel>>, j: int)
    requires
        0 <= j < splits.len(),
    ensures
        max_rank(splits[j]) <= rank_bound(splits),
    decreases splits.len(),
{
    if j < splits.len() - 1 {
        lemma_rank_bound_covers(splits.drop_last(), j);
        assert(splits.drop_last()[j] == splits[j]);
    }
}

proof fn lemma_band_of_splits_has(splits: Seq<Seq<PartModel>>, j: int, r: nat, x: Seq<char>)
    requires
        0 <= j < splits.len(),
        band_texts(splits[j], r).contains(x),
    ensures
        band_of_splits(splits, r).contains(x),
    decreases splits.len(),
{
    if j < splits.len() - 1 {
        assert(splits.drop_last()[j] == splits[j]);
        lemma_band_of_splits_has(splits.drop_last(), j, r, x);
    }
    lemma_contains_concat(band_of_splits(splits.drop_last(), r), band_texts(splits.last(), r), x);
}

proof fn lemma_bands_upto_has(splits: Seq<Seq<PartModel>>, b: nat, r: nat, x: Seq<char>)
    requires
        r < b,
        band_of_splits(splits, r).contains(x),
    ensures
        bands_upto(splits, b).contains(x),
    decreases b,
{
    if r < b - 1 {
        lemma_bands_upto_has(splits, (b - 1) as nat, r, x);
    }
    lemma_contains_concat(bands_upto(splits, (b - 1) as nat), band_of_splits(splits, (b - 1) as nat), x);
}

/// No choice is left out of a part count's stream: for every split and every
/// choice of one candidate per part, the concatenated text is listed.
pub proof fn law_every_choice_listed(splits: Seq<Seq<PartModel>>, j: int, idx: Seq<int>)
    requires
        0 <= j < splits.len(),
        fits(splits[j], idx),
    ensures
        texts_of_splits(splits).contains(choice_text(splits[j], idx)),
{
    lemma_band_has_choice(splits[j], idx);
    lemma_index_sum_bound(splits[j], idx);
    lemma_rank_bound_covers(splits, j);
    let r = index_sum(idx) as nat;
    lemma_band_of_splits_has(splits, j, r, choice_text(splits[j], idx));
    lemma_bands_upto_has(splits, rank_bound(splits) + 1, r, choice_text(splits[j], idx));
}

proof fn lemma_streams_upto_has(
    snap: &DictionarySnapshot,
    chars: Seq<char>,
    okuri: Option<char>,
    kk: nat,
    k: nat,
    x: Seq<char>,
)
    requires
        2 <= k < kk,
        texts_of_splits(splits_of(snap, chars, k, okuri)).contains(x),
    ensures
        streams_upto(snap, chars, okuri, kk).contains(x),
    decreases kk,
{
    if k < kk - 1 {
        lemma_streams_upto_has(snap, chars, okuri, (kk - 1) as nat, k, x);
    }
    lemma_contains_concat(
        streams_upto(snap, chars, okuri, (kk - 1) as nat),
        texts_of_splits(splits_of(snap, chars, (kk - 1) as nat, okuri)),
        x,
    );
}

proof fn lemma_absorb_keeps(acc: Seq<Seq<char>>, xs: Seq<Seq<char>>, cap: nat, x: Seq<char>)
    requires
        xs.contains(x),
        absorb(acc, xs, cap).len() < cap,
    ensures
        absorb(acc, xs, cap).contains(x),
    decreases xs.len(),
{
    let p = absorb(acc, xs.drop_last(), cap);
    let q = absorb(acc, xs, cap);
    assert(p.len() <= q.len());
    if xs.last() == x {
        if p.contains(x) {
            let i = choose|i: int| 0 <= i < p.len() && p[i] == x;
            assert(q[i] == x);
        } else {
            assert(q[p.len() as int] == x);
        }
    } else {
        let i = choose|i: int| 0 <= i < xs.len() && xs[i] == x;
        assert(xs.drop_last()[i] == x);
        lemma_absorb_keeps(acc, xs.drop_last(), cap, x);
        let w = choose|w: int| 0 <= w < p.len() && p[w] == x;
        assert(q[w] == x);
    }
}

/// Every part count from two up to the length of the yomi takes part, with
/// or without an okurigana letter: every choice of candidates for every
/// split into `k` parts is in the compound stream.
pub proof fn law_compound_stream_complete(
    snap: &DictionarySnapshot,
    chars: Seq<char>,
    okuri: Option<char>,
    k: nat,
    j: int,
    idx: Seq<int>,
)
    requires
        2 <= k <= chars.len(),
        0 <= j < splits_of(snap, chars, k, okuri).len(),
        fits(splits_of(snap, chars, k, okuri)[j], idx),
    ensures
        compound_stream(snap, chars, okuri).contains(choice_text(splits_of(snap, chars, k, okuri)[j], idx)),
{
    law_every_choice_listed(splits_of(snap, chars, k, okuri), j, idx);
    lemma_streams_upto_has(
        snap,
        chars,
        okuri,
        chars.len() + 1,
        k,
        choice_text(splits_of(snap, chars, k, okuri)[j], idx),
    );
}

/// Until the cap is reached nothing is left out: when `generate` returns
/// fewer texts than the cap, it returns every choice of candidates for every
/// split of the yomi into two or more parts.
pub proof fn law_generated_complete_below_cap(
    snap: &DictionarySnapshot,
    chars: Seq<char>,
    cap: nat,
    okuri: Option<char>,
    k: nat,
    j: int,
    idx: Seq<int>,
)
    requires
        2 <= k <= chars.len(),
        0 <= j < splits_of(snap, chars, k, okuri).len(),
        fits(splits_of(snap, chars, k, okuri)[j], idx),
        generated(snap, chars, cap, okuri).len() < cap,
    ensures
        generated(snap, chars, cap, okuri).contains(choice_text(splits_of(snap, chars, k, okuri)[j], idx)),
{
    law_compound_stream_complete(snap, chars, okuri, k, j, idx);
    lemma_absorb_keeps(
        Seq::empty(),
        compound_stream(snap, chars, okuri),
        cap,
        choice_text(splits_of(snap, chars, k, okuri)[j], idx),
    );
}

// ---------------------------------------------------------------------------
// Completeness of the split enumeration
// ---------------------------------------------------------------------------

/// `r` is an okuri-nashi reading of the user or a system dictionary that
/// spells `chars` at `start` and has candidates.
pub open spec fn nashi_part_at(
    snap: &DictionarySnapshot,
    user: Seq<EntryModel>,
    system: Seq<EntryModel>,
    chars: Seq<char>,
    start: int,
    r: Seq<char>,
) -> bool {
    &&& r.len() > 0
    &&& 0 <= start
    &&& start + r.len() <= chars.len()
    &&& chars.subrange(start, start + r.len()) == r
    &&& registers(user, r, false) || registers(system, r, false)
    &&& snap.spec_candidates(r).len() > 0
}

/// `r` can end a split of `chars` at `start`: with no okurigana letter, an
/// okuri-nashi reading that spells the rest of the input; with letter `c`,
/// an okuri-ari reading `<stem>c` of a dictionary, with candidates, whose
/// stem spells the rest of the input.
pub open spec fn last_part_at(
    snap: &DictionarySnapshot,
    user: Seq<EntryModel>,
    system: Seq<EntryModel>,
    chars: Seq<char>,
    start: int,
    r: Seq<char>,
    okuri: Option<char>,
) -> bool {
    match okuri {
        None => nashi_part_at(snap, user, system, chars, start, r) && start + r.len() == chars.len(),
        Some(c) => {
            &&& r.len() >= 2
            &&& r.last() == c
            &&& 0 <= start
            &&& start + r.len() - 1 == chars.len()
            &&& chars.subrange(start, chars.len() as int) == r.drop_last()
            &&& registers(user, r, true) || registers(system, r, true)
            &&& snap.spec_okuri_ari_candidates(r).len() > 0
        },
    }
}

/// `rs` splits `chars[start..]` into dictionary readings, part by part.
pub open spec fn split_at(
    snap: &DictionarySnapshot,
    user: Seq<EntryModel>,
    system: Seq<EntryModel>,
    chars: Seq<char>,
    start: int,
    rs: Seq<Seq<char>>,
    okuri: Option<char>,
) -> bool
    decreases rs.len(),
{
    if rs.len() == 0 {
        false
    } else if rs.len() == 1 {
        last_part_at(snap, user, system, chars, start, rs[0], okuri)
    } else {
        nashi_part_at(snap, user, system, chars, start, rs[0]) && split_at(
            snap,
            user,
            system,
            chars,
            start + rs[0].len(),
            rs.drop_first(),
            okuri,
        )
    }
}

/// The parts of the split `rs`: each reading with the snapshot's candidates
/// for it (okuri-ari candidates for the last part when there is a letter).
pub open spec fn parts_for(snap: &DictionarySnapshot, rs: Seq<Seq<char>>, okuri: Option<char>) -> Seq<
    PartModel,
>
    decreases rs.len(),
{
    if rs.len() == 0 {
        Seq::empty()
    } else if rs.len() == 1 {
        seq![
            (
                rs[0],
                match okuri {
                    Some(_) => snap.spec_okuri_ari_candidates(rs[0]),
                    None => snap.spec_candidates(rs[0]),
                },
            ),
        ]
    } else {
        seq![(rs[0], snap.spec_candidates(rs[0]))] + parts_for(snap, rs.drop_first(), okuri)
    }
}

proof fn lemma_split_length(
    snap: &DictionarySnapshot,
    user: Seq<EntryModel>,
    system: Seq<EntryModel>,
    chars: Seq<char>,
    start: int,
    rs: Seq<Seq<char>>,
    okuri: Option<char>,
)
    requires
        split_at(snap, user, system, chars, start, rs, okuri),
    ensures
        0 <= start,
        chars.len() - start >= rs.len(),
    decreases rs.len(),
{
    if rs.len() > 1 {
        lemma_split_length(snap, user, system, chars, start + rs[0].len(), rs.drop_first(), okuri);
    }
}

proof fn lemma_last_part_splits_has(
    snap: &DictionarySnapshot,
    n: int,
    start: int,
    okuri: Option<char>,
    ms: Seq<MatchModel>,
    i: int,
)
    requires
        0 <= i < ms.len(),
        start + ms[i].0 == n,
        last_part_candidates(snap, okuri, ms[i].1).len() > 0,
    ensures
        last_part_splits(snap, n, start, okuri, ms).contains(
            seq![(ms[i].1, last_part_candidates(snap, okuri, ms[i].1))],
        ),
    decreases ms.len(),
{
    let prev = last_part_splits(snap, n, start, okuri, ms.drop_last());
    let x = seq![(ms[i].1, last_part_candidates(snap, okuri, ms[i].1))];
    if i == ms.len() - 1 {
        assert(last_part_splits(snap, n, start, okuri, ms)[prev.len() as int] == x);
    } else {
        assert(ms.drop_last()[i] == ms[i]);
        lemma_last_part_splits_has(snap, n, start, okuri, ms.drop_last(), i);
        let w = choose|w: int| 0 <= w < prev.len() && prev[w] == x;
        assert(last_part_splits(snap, n, start, okuri, ms)[w] == x);
    }
}

proof fn lemma_mid_part_splits_has(
    snap: &DictionarySnapshot,
    chars: Seq<char>,
    parts_left: nat,
    start: int,
    okuri: Option<char>,
    ms: Seq<MatchModel>,
    i: int,
    tail: Seq<PartModel>,
)
    requires
        parts_left >= 2,
        0 <= i < ms.len(),
        start + ms[i].0 < chars.len(),
        chars.len() - (start + ms[i].0) >= parts_left - 1,
        snap.spec_candidates(ms[i].1).len() > 0,
        splits_from(snap, chars, (parts_left - 1) as nat, start + ms[i].0, okuri).contains(tail),
    ensures
        mid_part_splits(snap, chars, parts_left, start, okuri, ms).contains(
            seq![(ms[i].1, snap.spec_candidates(ms[i].1))] + tail,
        ),
    decreases ms.len(),
{
    let prev = mid_part_splits(snap, chars, parts_left, start, okuri, ms.drop_last());
    let x = seq![(ms[i].1, snap.spec_candidates(ms[i].1))] + tail;
    if i == ms.len() - 1 {
        let m = ms.last();
        let block = with_parts_before(
            seq![(m.1, snap.spec_candidates(m.1))],
            splits_from(snap, chars, (parts_left - 1) as nat, start + m.0, okuri),
        );
        let sf = splits_from(snap, chars, (parts_left - 1) as nat, start + m.0, okuri);
        let w = choose|w: int| 0 <= w < sf.len() && sf[w] == tail;
        assert(block[w] == x);
        assert(mid_part_splits(snap, chars, parts_left, start, okuri, ms) == prev + block);
        assert((prev + block)[prev.len() + w] == x);
    } else {
        assert(ms.drop_last()[i] == ms[i]);
        lemma_mid_part_splits_has(snap, chars, parts_left, start, okuri, ms.drop_last(), i, tail);
        let w = choose|w: int| 0 <= w < prev.len() && prev[w] == x;
        let cur = mid_part_splits(snap, chars, parts_left, start, okuri, ms);
        if cur != prev {
            let m = ms.last();
            let block = with_parts_before(
                seq![(m.1, snap.spec_candidates(m.1))],
                splits_from(snap, chars, (parts_left - 1) as nat, start + m.0, okuri),
            );
            assert(cur == prev + block);
            assert((prev + block)[w] == x);
        }
    }
}

/// The split enumeration is complete: every way of splitting
/// `chars[start..]` into dictionary readings that have candidates is
/// enumerated, each part with the snapshot's candidates for its reading.
pub proof fn law_splits_complete(
    snap: &DictionarySnapshot,
    user: Seq<EntryModel>,
    system: Seq<EntryModel>,
    chars: Seq<char>,
    start: int,
    rs: Seq<Seq<char>>,
    okuri: Option<char>,
)
    requires
        snapshot_holds(snap, user, system),
        split_at(snap, user, system, chars, start, rs, okuri),
    ensures
        splits_from(snap, chars, rs.len(), start, okuri).contains(parts_for(snap, rs, okuri)),
    decreases rs.len(),
{
    let r = rs[0];
    if rs.len() == 1 {
        let ms = last_part_matches(snap, chars, start, okuri);
        match okuri {
            None => {
                law_prefix_matches_complete(snap, user, system, chars, start, r);
                law_prefix_matches_sound(snap, chars, start, 'a');
                let i = choose|i: int| 0 <= i < ms.len() && (#[trigger] ms[i]).1 == r;
                assert(ms[i].0 == ms[i].1.len());
                lemma_last_part_splits_has(snap, chars.len() as int, start, okuri, ms, i);
            },
            Some(c) => {
                assert(chars.subrange(start, start + r.len() - 1) == r.drop_last());
                law_okuri_ari_prefix_matches_complete(snap, user, system, chars, start, c, r);
                law_prefix_matches_sound(snap, chars, start, c);
                let i = choose|i: int| 0 <= i < ms.len() && (#[trigger] ms[i]).1 == r;
                assert(ms[i].0 == ms[i].1.len() - 1);
                lemma_last_part_splits_has(snap, chars.len() as int, start, okuri, ms, i);
            },
        }
        assert(parts_for(snap, rs, okuri) == seq![(r, last_part_candidates(snap, okuri, r))]);
    } else {
        let next = start + r.len();
        let rest = rs.drop_first();
        law_splits_complete(snap, user, system, chars, next, rest, okuri);
        lemma_split_length(snap, user, system, chars, next, rest, okuri);
        let ms = snap.spec_prefix_matches(chars, start);
        law_prefix_matches_complete(snap, user, system, chars, start, r);
        law_prefix_matches_sound(snap, chars, start, 'a');
        let i = choose|i: int| 0 <= i < ms.len() && (#[trigger] ms[i]).1 == r;
        assert(ms[i].0 == ms[i].1.len());
        lemma_mid_part_splits_has(
            snap,
            chars,
            rs.len(),
            start,
            okuri,
            ms,
            i,
            parts_for(snap, rest, okuri),
        );
        assert(parts_for(snap, rs, okuri) == seq![(r, snap.spec_candidates(r))] + parts_for(snap, rest, okuri));
    }
}

/// Below the cap, `generate` finds every compound: for every way of
/// splitting the yomi into two or more dictionary readings with candidates
/// (the last one okuri-ari with the request's letter when there is one) and
/// every choice of one candidate per part, the concatenated text is returned
/// whenever fewer texts than the cap are.
pub proof fn law_generated_finds_every_split(
    snap: &DictionarySnapshot,
    user: Seq<EntryModel>,
    system: Seq<EntryModel>,
    chars: Seq<char>,
    cap: nat,
    okuri: Option<char>,
    rs: Seq<Seq<char>>,
    idx: Seq<int>,
)
    requires
        snapshot_holds(snap, user, system),
        rs.len() >= 2,
        split_at(snap, user, system, chars, 0, rs, okuri),
        fits(parts_for(snap, rs, okuri), idx),
        generated(snap, chars, cap, okuri).len() < cap,
    ensures
        generated(snap, chars, cap, okuri).contains(choice_text(parts_for(snap, rs, okuri), idx)),
{
    law_splits_complete(snap, user, system, chars, 0, rs, okuri);
    lemma_split_length(snap, user, system, chars, 0, rs, okuri);
    let ss = splits_of(snap, chars, rs.len(), okuri);
    let j = choose|j: int| 0 <= j < ss.len() && ss[j] == parts_for(snap, rs, okuri);
    law_generated_complete_below_cap(snap, chars, cap, okuri, rs.len(), j, idx);
}

} // verus!
