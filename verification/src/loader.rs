//! Building the two-tier index from parsed dictionaries, and decoding
//! dictionary file contents.

use vstd::prelude::*;
use std::collections::HashMap;
use std::sync::Arc;
use crate::dictionary::{Candidate, DictionarySource, EntryModel, ParsedEntry};
use crate::parser::{parse, source_entries};
use crate::snapshot::{
    ari_hit, ari_hits, cands_view, has_reading, key_of, lookup, merge_hits, nashi_hits, spells_at,
    tiered_lookup, unseen, with_empty_reading, with_first, Bucket, CandModel, DictionarySnapshot,
    Layer, MatchModel, ReadingModel,
};
use crate::text::chars_of;
use crate::codec::{decodable_len, decode_euc_jp_strict, decode_utf8_strict, euc_jp_text, utf8_text};

verus! {

broadcast use vstd::std_specs::hash::group_hash_axioms;

// ---------------------------------------------------------------------------
// Specification
// ---------------------------------------------------------------------------

pub open spec fn parsed_view(es: Seq<ParsedEntry>) -> Seq<EntryModel> {
    es.map_values(|e: ParsedEntry| e@)
}

/// The okuri-nashi entries of `es`, in order.
pub open spec fn nashi_of(es: Seq<EntryModel>) -> Seq<EntryModel>
    decreases es.len(),
{
    if es.len() == 0 {
        Seq::empty()
    } else if es.last().is_okuri_ari {
        nashi_of(es.drop_last())
    } else {
        nashi_of(es.drop_last()).push(es.last())
    }
}

/// The okuri-ari entries of `es`, in order.
pub open spec fn ari_of(es: Seq<EntryModel>) -> Seq<EntryModel>
    decreases es.len(),
{
    if es.len() == 0 {
        Seq::empty()
    } else if es.last().is_okuri_ari {
        ari_of(es.drop_last()).push(es.last())
    } else {
        ari_of(es.drop_last())
    }
}

/// `acc` extended by the texts of `xs` it does not hold yet, in order.
pub open spec fn add_unique(acc: Seq<Seq<char>>, xs: Seq<Seq<char>>) -> Seq<Seq<char>>
    decreases xs.len(),
{
    if xs.len() == 0 {
        acc
    } else {
        let p = add_unique(acc, xs.drop_last());
        if p.contains(xs.last()) {
            p
        } else {
            p.push(xs.last())
        }
    }
}

/// The distinct readings of `es` in first-seen order.
pub open spec fn first_seen_readings(es: Seq<EntryModel>) -> Seq<Seq<char>>
    decreases es.len(),
{
    if es.len() == 0 {
        Seq::empty()
    } else {
        let p = first_seen_readings(es.drop_last());
        if p.contains(es.last().reading) {
            p
        } else {
            p.push(es.last().reading)
        }
    }
}

/// The distinct candidate texts registered for reading `r` across all of
/// `es`, in first-seen order.
pub open spec fn texts_of_reading(es: Seq<EntryModel>, r: Seq<char>) -> Seq<Seq<char>>
    decreases es.len(),
{
    if es.len() == 0 {
        Seq::empty()
    } else {
        let p = texts_of_reading(es.drop_last(), r);
        if es.last().reading == r {
            add_unique(p, es.last().candidates)
        } else {
            p
        }
    }
}

pub open spec fn tag(ts: Seq<Seq<char>>, src: DictionarySource) -> Seq<CandModel> {
    ts.map_values(|t: Seq<char>| (t, src))
}

/// One group per distinct reading, in first-seen order, holding every text
/// registered for it once, tagged with `src`.
pub open spec fn grouped(es: Seq<EntryModel>, src: DictionarySource) -> Seq<ReadingModel> {
    first_seen_readings(es).map_values(|r: Seq<char>| (r, tag(texts_of_reading(es, r), src)))
}

pub open spec fn has_text(cs: Seq<CandModel>, t: Seq<char>) -> bool {
    exists|i: int| 0 <= i < cs.len() && (#[trigger] cs[i]).0 == t
}

/// `cs` followed by the candidates of `more` whose text is not yet listed.
pub open spec fn merge_texts(cs: Seq<CandModel>, more: Seq<CandModel>) -> Seq<CandModel>
    decreases more.len(),
{
    if more.len() == 0 {
        cs
    } else {
        let p = merge_texts(cs, more.drop_last());
        if has_text(p, more.last().0) {
            p
        } else {
            p.push(more.last())
        }
    }
}

/// Each user group followed by the system tier's candidates for the same
/// reading (deduped by text).
pub open spec fn merged_with(groups: Seq<ReadingModel>, system: &Bucket) -> Seq<ReadingModel> {
    groups.map_values(
        |g: ReadingModel|
            (
                g.0,
                match system.spec_lookup(g.0) {
                    Some(s) => merge_texts(g.1, s),
                    None => g.1,
                },
            ),
    )
}

pub open spec fn groups_view(gs: Seq<(String, Vec<Candidate>)>) -> Seq<ReadingModel> {
    gs.map_values(|p: (String, Vec<Candidate>)| (p.0@, cands_view(p.1@)))
}

/// The code used to find a reading's group quickly.
pub open spec fn reading_hash(s: Seq<char>) -> u64
    decreases s.len(),
{
    if s.len() == 0 {
        0
    } else {
        ((reading_hash(s.drop_last()) as int * 31 + (s.last() as u32) as int) % 1_000_000_007) as u64
    }
}

/// The system tier built from `system` entries.
pub open spec fn system_layer_holds(l: &Layer, system: Seq<EntryModel>) -> bool {
    &&& l.nashi.holds(grouped(nashi_of(system), DictionarySource::System))
    &&& l.ari.holds(grouped(ari_of(system), DictionarySource::System))
}

/// The user tier built from `user` entries over system tier `sys`.
pub open spec fn user_layer_holds(l: &Layer, user: Seq<EntryModel>, sys: &Layer) -> bool {
    &&& l.nashi.holds(merged_with(grouped(nashi_of(user), DictionarySource::User), &sys.nashi))
    &&& l.ari.holds(merged_with(grouped(ari_of(user), DictionarySource::User), &sys.ari))
}

/// The snapshot built from `user` and `system` entries.
pub open spec fn snapshot_holds(s: &DictionarySnapshot, user: Seq<EntryModel>, system: Seq<EntryModel>) -> bool {
    &&& system_layer_holds(s.system_layer(), system)
    &&& user_layer_holds(s.user_layer(), user, s.system_layer())
}

// ---------------------------------------------------------------------------
// Lemmas
// ---------------------------------------------------------------------------

proof fn lemma_texts_absent(es: Seq<EntryModel>, r: Seq<char>)
    requires
        !first_seen_readings(es).contains(r),
    ensures
        texts_of_reading(es, r) == Seq::<Seq<char>>::empty(),
    decreases es.len(),
{
    if es.len() > 0 {
        let p = first_seen_readings(es.drop_last());
        if p.contains(r) {
            assert(first_seen_readings(es).contains(r)) by {
                let i = choose|i: int| 0 <= i < p.len() && p[i] == r;
                if !p.contains(es.last().reading) {
                    assert(first_seen_readings(es)[i] == r);
                }
            }
        }
        if es.last().reading == r {
            assert(first_seen_readings(es).contains(r)) by {
                if p.contains(r) {
                } else {
                    assert(first_seen_readings(es).last() == r);
                }
            }
        }
        lemma_texts_absent(es.drop_last(), r);
    }
}

proof fn lemma_first_seen_distinct(es: Seq<EntryModel>)
    ensures
        first_seen_readings(es).no_duplicates(),
    decreases es.len(),
{
    if es.len() > 0 {
        lemma_first_seen_distinct(es.drop_last());
    }
}

/// A bucket answers a lookup as the entry list it holds does.
proof fn lemma_bucket_lookup(b: &Bucket, es: Seq<ReadingModel>, r: Seq<char>)
    requires
        b.holds(es),
    ensures
        b.spec_lookup(r) == lookup(es, r),
{
    if r.len() == 0 {
        lemma_lookup_empty_reading(es, r);
    } else {
        assert(b.group(key_of(r[0])) == with_first(es, key_of(r[0])));
        lemma_lookup_with_first(es, r, key_of(r[0]));
    }
}

proof fn lemma_lookup_with_first(es: Seq<ReadingModel>, r: Seq<char>, k: u32)
    requires
        r.len() > 0,
        key_of(r[0]) == k,
    ensures
        lookup(with_first(es, k), r) == lookup(es, r),
    decreases es.len(),
{
    if es.len() > 0 {
        lemma_lookup_with_first(es.drop_last(), r, k);
        let prev = with_first(es.drop_last(), k);
        if es.last().0.len() > 0 && key_of(es.last().0[0]) == k {
            assert(prev.push(es.last()).drop_last() =~= prev);
        }
    }
}

proof fn lemma_lookup_empty_reading(es: Seq<ReadingModel>, r: Seq<char>)
    requires
        r.len() == 0,
    ensures
        lookup(with_empty_reading(es), r) == lookup(es, r),
    decreases es.len(),
{
    if es.len() > 0 {
        lemma_lookup_empty_reading(es.drop_last(), r);
        let prev = with_empty_reading(es.drop_last());
        if es.last().0.len() == 0 {
            assert(prev.push(es.last()).drop_last() =~= prev);
            assert(es.last().0 =~= r);
        }
    }
}

/// Looking a reading up among groups keyed by `rs` finds its texts exactly
/// when `rs` lists it.
proof fn lemma_lookup_keyed(rs: Seq<Seq<char>>, es: Seq<EntryModel>, src: DictionarySource, r: Seq<char>)
    ensures
        lookup(rs.map_values(|x: Seq<char>| (x, tag(texts_of_reading(es, x), src))), r) == if rs.contains(r) {
            Some(tag(texts_of_reading(es, r), src))
        } else {
            None::<Seq<CandModel>>
        },
    decreases rs.len(),
{
    let m = rs.map_values(|x: Seq<char>| (x, tag(texts_of_reading(es, x), src)));
    if rs.len() > 0 {
        let p = rs.drop_last();
        lemma_lookup_keyed(p, es, src, r);
        assert(m.drop_last() =~= p.map_values(|x: Seq<char>| (x, tag(texts_of_reading(es, x), src))));
        if rs.last() != r {
            assert(rs.contains(r) == p.contains(r)) by {
                if rs.contains(r) {
                    let i = choose|i: int| 0 <= i < rs.len() && rs[i] == r;
                    assert(p[i] == r);
                }
            }
        }
    }
}

proof fn lemma_lookup_grouped(es: Seq<EntryModel>, src: DictionarySource, r: Seq<char>)
    ensures
        lookup(grouped(es, src), r) == if first_seen_readings(es).contains(r) {
            Some(tag(texts_of_reading(es, r), src))
        } else {
            None::<Seq<CandModel>>
        },
{
    lemma_lookup_keyed(first_seen_readings(es), es, src, r);
}

/// Merging with the system tier keeps the readings and extends each list.
proof fn lemma_lookup_merged(gs: Seq<ReadingModel>, sys: &Bucket, r: Seq<char>)
    ensures
        lookup(merged_with(gs, sys), r) == match lookup(gs, r) {
            Some(c) => Some(
                match sys.spec_lookup(r) {
                    Some(x) => merge_texts(c, x),
                    None => c,
                },
            ),
            None => None::<Seq<CandModel>>,
        },
    decreases gs.len(),
{
    if gs.len() > 0 {
        lemma_lookup_merged(gs.drop_last(), sys, r);
        assert(merged_with(gs, sys).drop_last() =~= merged_with(gs.drop_last(), sys));
    }
}

proof fn lemma_add_unique_distinct(acc: Seq<Seq<char>>, xs: Seq<Seq<char>>)
    requires
        acc.no_duplicates(),
    ensures
        add_unique(acc, xs).no_duplicates(),
    decreases xs.len(),
{
    if xs.len() > 0 {
        lemma_add_unique_distinct(acc, xs.drop_last());
        let p = add_unique(acc, xs.drop_last());
        if !p.contains(xs.last()) {
            assert forall|i: int, j: int| 0 <= i < j < p.len() + 1 implies p.push(xs.last())[i] != p.push(
                xs.last(),
            )[j] by {
                if j == p.len() {
                    assert(p[i] != xs.last());
                }
            }
        }
    }
}

proof fn lemma_texts_distinct(es: Seq<EntryModel>, r: Seq<char>)
    ensures
        texts_of_reading(es, r).no_duplicates(),
    decreases es.len(),
{
    if es.len() > 0 {
        lemma_texts_distinct(es.drop_last(), r);
        if es.last().reading == r {
            lemma_add_unique_distinct(texts_of_reading(es.drop_last(), r), es.last().candidates);
        }
    }
}

/// Distinct tagged texts merged into nothing stay as they are.
proof fn lemma_merge_into_empty(ts: Seq<Seq<char>>, src: DictionarySource)
    requires
        ts.no_duplicates(),
    ensures
        merge_texts(Seq::empty(), tag(ts, src)) == tag(ts, src),
    decreases ts.len(),
{
    if ts.len() > 0 {
        let p = ts.drop_last();
        assert(tag(ts, src).drop_last() =~= tag(p, src));
        assert(p.no_duplicates());
        lemma_merge_into_empty(p, src);
        if has_text(tag(p, src), ts.last()) {
            let i = choose|i: int| 0 <= i < tag(p, src).len() && (#[trigger] tag(p, src)[i]).0 == ts.last();
            assert(ts[i] == ts[ts.len() - 1]);
        }
        assert(tag(p, src).push(tag(ts, src).last()) =~= tag(ts, src));
    }
}

/// The candidate list a two-tier lookup yields for reading `r`: the user
/// texts, then the system texts the user did not list.
proof fn lemma_tiered(user_b: &Bucket, sys_b: &Bucket, ue: Seq<EntryModel>, se: Seq<EntryModel>, r: Seq<char>)
    requires
        sys_b.holds(grouped(se, DictionarySource::System)),
        user_b.holds(merged_with(grouped(ue, DictionarySource::User), sys_b)),
    ensures
        tiered_lookup(user_b, sys_b, r) == merge_texts(
            tag(texts_of_reading(ue, r), DictionarySource::User),
            tag(texts_of_reading(se, r), DictionarySource::System),
        ),
{
    let tu = texts_of_reading(ue, r);
    let ts = texts_of_reading(se, r);
    lemma_bucket_lookup(sys_b, grouped(se, DictionarySource::System), r);
    lemma_bucket_lookup(user_b, merged_with(grouped(ue, DictionarySource::User), sys_b), r);
    lemma_lookup_merged(grouped(ue, DictionarySource::User), sys_b, r);
    lemma_lookup_grouped(ue, DictionarySource::User, r);
    lemma_lookup_grouped(se, DictionarySource::System, r);
    if !first_seen_readings(se).contains(r) {
        lemma_texts_absent(se, r);
        assert(tag(ts, DictionarySource::System) =~= Seq::<CandModel>::empty());
    }
    if !first_seen_readings(ue).contains(r) {
        lemma_texts_absent(ue, r);
        assert(tag(tu, DictionarySource::User) =~= Seq::<CandModel>::empty());
        lemma_texts_distinct(se, r);
        lemma_merge_into_empty(ts, DictionarySource::System);
    }
}

/// After indexing, the okuri-nashi candidates of a reading are the user
/// dictionary's texts for it (first-seen order, each once, tagged user),
/// followed by the texts of the system dictionaries that the user did not
/// list (first-seen order across the system dictionaries, tagged system).
pub proof fn law_candidates_user_first(
    s: &DictionarySnapshot,
    user: Seq<EntryModel>,
    system: Seq<EntryModel>,
    r: Seq<char>,
)
    requires
        snapshot_holds(s, user, system),
    ensures
        s.spec_candidates(r) == merge_texts(
            tag(texts_of_reading(nashi_of(user), r), DictionarySource::User),
            tag(texts_of_reading(nashi_of(system), r), DictionarySource::System),
        ),
{
    lemma_tiered(&s.user_layer().nashi, &s.system_layer().nashi, nashi_of(user), nashi_of(system), r);
}

/// The same order for okuri-ari readings (`r` ends in the okurigana letter).
pub proof fn law_okuri_ari_candidates_user_first(
    s: &DictionarySnapshot,
    user: Seq<EntryModel>,
    system: Seq<EntryModel>,
    r: Seq<char>,
)
    requires
        snapshot_holds(s, user, system),
    ensures
        s.spec_okuri_ari_candidates(r) == merge_texts(
            tag(texts_of_reading(ari_of(user), r), DictionarySource::User),
            tag(texts_of_reading(ari_of(system), r), DictionarySource::System),
        ),
{
    lemma_tiered(&s.user_layer().ari, &s.system_layer().ari, ari_of(user), ari_of(system), r);
}

/// No text is listed twice.
pub open spec fn texts_distinct(cs: Seq<CandModel>) -> bool {
    forall|i: int, j: int| 0 <= i < j < cs.len() ==> (#[trigger] cs[i]).0 != (#[trigger] cs[j]).0
}

proof fn lemma_tag_distinct(ts: Seq<Seq<char>>, src: DictionarySource)
    requires
        ts.no_duplicates(),
    ensures
        texts_distinct(tag(ts, src)),
{
    assert forall|i: int, j: int| 0 <= i < j < tag(ts, src).len() implies (#[trigger] tag(ts, src)[i]).0
        != (#[trigger] tag(ts, src)[j]).0 by {
        assert(ts[i] != ts[j]);
    }
}

proof fn lemma_merge_texts_distinct(cs: Seq<CandModel>, more: Seq<CandModel>)
    requires
        texts_distinct(cs),
    ensures
        texts_distinct(merge_texts(cs, more)),
    decreases more.len(),
{
    if more.len() > 0 {
        lemma_merge_texts_distinct(cs, more.drop_last());
        let p = merge_texts(cs, more.drop_last());
        if !has_text(p, more.last().0) {
            let q = p.push(more.last());
            assert forall|i: int, j: int| 0 <= i < j < q.len() implies (#[trigger] q[i]).0 != (
            #[trigger] q[j]).0 by {
                if j == p.len() {
                    assert(q[i] == p[i]);
                    if p[i].0 == more.last().0 {
                        assert(has_text(p, more.last().0));
                    }
                } else {
                    assert(q[i] == p[i] && q[j] == p[j]);
                }
            }
        }
    }
}

/// After indexing, no reading lists the same text twice, in either bucket.
pub proof fn law_candidates_distinct_texts(
    s: &DictionarySnapshot,
    user: Seq<EntryModel>,
    system: Seq<EntryModel>,
    r: Seq<char>,
)
    requires
        snapshot_holds(s, user, system),
    ensures
        texts_distinct(s.spec_candidates(r)),
        texts_distinct(s.spec_okuri_ari_candidates(r)),
{
    law_candidates_user_first(s, user, system, r);
    law_okuri_ari_candidates_user_first(s, user, system, r);
    lemma_texts_distinct(nashi_of(user), r);
    lemma_texts_distinct(ari_of(user), r);
    lemma_tag_distinct(texts_of_reading(nashi_of(user), r), DictionarySource::User);
    lemma_tag_distinct(texts_of_reading(ari_of(user), r), DictionarySource::User);
    lemma_merge_texts_distinct(
        tag(texts_of_reading(nashi_of(user), r), DictionarySource::User),
        tag(texts_of_reading(nashi_of(system), r), DictionarySource::System),
    );
    lemma_merge_texts_distinct(
        tag(texts_of_reading(ari_of(user), r), DictionarySource::User),
        tag(texts_of_reading(ari_of(system), r), DictionarySource::System),
    );
}

/// No reading is listed twice.
pub open spec fn keys_distinct(es: Seq<ReadingModel>) -> bool {
    forall|i: int, j: int| 0 <= i < j < es.len() ==> (#[trigger] es[i]).0 != (#[trigger] es[j]).0
}

/// No reading is matched twice.
pub open spec fn hits_distinct(ms: Seq<MatchModel>) -> bool {
    forall|i: int, j: int| 0 <= i < j < ms.len() ==> (#[trigger] ms[i]).1 != (#[trigger] ms[j]).1
}

proof fn lemma_grouped_keys_distinct(es: Seq<EntryModel>, src: DictionarySource)
    ensures
        keys_distinct(grouped(es, src)),
{
    lemma_first_seen_distinct(es);
    let rs = first_seen_readings(es);
    assert forall|i: int, j: int| 0 <= i < j < grouped(es, src).len() implies (
    #[trigger] grouped(es, src)[i]).0 != (#[trigger] grouped(es, src)[j]).0 by {
        assert(rs[i] != rs[j]);
    }
}

proof fn lemma_merged_keys_distinct(gs: Seq<ReadingModel>, sys: &Bucket)
    requires
        keys_distinct(gs),
    ensures
        keys_distinct(merged_with(gs, sys)),
{
    let m = merged_with(gs, sys);
    assert forall|i: int, j: int| 0 <= i < j < m.len() implies (#[trigger] m[i]).0 != (#[trigger] m[j]).0 by {
        assert(m[i].0 == gs[i].0 && m[j].0 == gs[j].0);
    }
}

proof fn lemma_with_first_keys_distinct(es: Seq<ReadingModel>, k: u32)
    requires
        keys_distinct(es),
    ensures
        keys_distinct(with_first(es, k)),
        forall|i: int|
            0 <= i < with_first(es, k).len() ==> exists|j: int|
                0 <= j < es.len() && #[trigger] with_first(es, k)[i] == es[j],
    decreases es.len(),
{
    if es.len() > 0 {
        let e0 = es.drop_last();
        assert(keys_distinct(e0)) by {
            assert forall|i: int, j: int| 0 <= i < j < e0.len() implies (#[trigger] e0[i]).0 != (
            #[trigger] e0[j]).0 by {
                assert(e0[i] == es[i] && e0[j] == es[j]);
            }
        }
        lemma_with_first_keys_distinct(e0, k);
        let prev = with_first(e0, k);
        let r = es.last().0;
        if r.len() > 0 && key_of(r[0]) == k {
            let q = prev.push(es.last());
            assert forall|i: int| 0 <= i < q.len() implies exists|j: int| 0 <= j < es.len() && #[trigger] q[i] == es[j] by {
                if i < prev.len() {
                    let j = choose|j: int| 0 <= j < e0.len() && prev[i] == e0[j];
                    assert(q[i] == es[j]);
                } else {
                    assert(q[i] == es[es.len() - 1]);
                }
            }
            assert forall|i: int, j: int| 0 <= i < j < q.len() implies (#[trigger] q[i]).0 != (
            #[trigger] q[j]).0 by {
                if j == prev.len() {
                    let a = choose|a: int| 0 <= a < e0.len() && prev[i] == e0[a];
                    assert(es[a] == q[i]);
                    assert(es[es.len() - 1] == q[j]);
                } else {
                    assert(q[i] == prev[i] && q[j] == prev[j]);
                }
            }
        } else {
            assert forall|i: int| 0 <= i < prev.len() implies exists|j: int| 0 <= j < es.len() && #[trigger] prev[i] == es[j] by {
                let j = choose|j: int| 0 <= j < e0.len() && prev[i] == e0[j];
                assert(prev[i] == es[j]);
            }
        }
    }
}

proof fn lemma_nashi_hits_distinct(es: Seq<ReadingModel>, chars: Seq<char>, start: int)
    requires
        keys_distinct(es),
    ensures
        hits_distinct(nashi_hits(es, chars, start)),
        forall|i: int|
            0 <= i < nashi_hits(es, chars, start).len() ==> exists|j: int|
                0 <= j < es.len() && (#[trigger] nashi_hits(es, chars, start)[i]).1 == es[j].0,
    decreases es.len(),
{
    if es.len() > 0 {
        let e0 = es.drop_last();
        assert(keys_distinct(e0)) by {
            assert forall|i: int, j: int| 0 <= i < j < e0.len() implies (#[trigger] e0[i]).0 != (
            #[trigger] e0[j]).0 by {
                assert(e0[i] == es[i] && e0[j] == es[j]);
            }
        }
        lemma_nashi_hits_distinct(e0, chars, start);
        let prev = nashi_hits(e0, chars, start);
        let r = es.last().0;
        if spells_at(chars, start, r) {
            let q = prev.push((r.len(), r));
            assert forall|i: int| 0 <= i < q.len() implies exists|j: int| 0 <= j < es.len() && (#[trigger] q[i]).1 == es[j].0 by {
                if i < prev.len() {
                    let j = choose|j: int| 0 <= j < e0.len() && prev[i].1 == e0[j].0;
                    assert(q[i].1 == es[j].0);
                } else {
                    assert(q[i].1 == es[es.len() - 1].0);
                }
            }
            assert forall|i: int, j: int| 0 <= i < j < q.len() implies (#[trigger] q[i]).1 != (
            #[trigger] q[j]).1 by {
                if j == prev.len() {
                    let a = choose|a: int| 0 <= a < e0.len() && prev[i].1 == e0[a].0;
                    assert(es[a].0 == q[i].1);
                } else {
                    assert(q[i] == prev[i] && q[j] == prev[j]);
                }
            }
        } else {
            assert forall|i: int| 0 <= i < prev.len() implies exists|j: int| 0 <= j < es.len() && (#[trigger] prev[i]).1 == es[j].0 by {
                let j = choose|j: int| 0 <= j < e0.len() && prev[i].1 == e0[j].0;
                assert(prev[i].1 == es[j].0);
            }
        }
    }
}

proof fn lemma_ari_hits_distinct(es: Seq<ReadingModel>, chars: Seq<char>, start: int, okuri: char)
    requires
        keys_distinct(es),
    ensures
        hits_distinct(ari_hits(es, chars, start, okuri)),
        forall|i: int|
            0 <= i < ari_hits(es, chars, start, okuri).len() ==> exists|j: int|
                0 <= j < es.len() && (#[trigger] ari_hits(es, chars, start, okuri)[i]).1 == es[j].0,
    decreases es.len(),
{
    if es.len() > 0 {
        let e0 = es.drop_last();
        assert(keys_distinct(e0)) by {
            assert forall|i: int, j: int| 0 <= i < j < e0.len() implies (#[trigger] e0[i]).0 != (
            #[trigger] e0[j]).0 by {
                assert(e0[i] == es[i] && e0[j] == es[j]);
            }
        }
        lemma_ari_hits_distinct(e0, chars, start, okuri);
        let prev = ari_hits(e0, chars, start, okuri);
        let r = es.last().0;
        if ari_hit(r, chars, start, okuri) {
            let q = prev.push(((r.len() - 1) as nat, r));
            assert forall|i: int| 0 <= i < q.len() implies exists|j: int| 0 <= j < es.len() && (#[trigger] q[i]).1 == es[j].0 by {
                if i < prev.len() {
                    let j = choose|j: int| 0 <= j < e0.len() && prev[i].1 == e0[j].0;
                    assert(q[i].1 == es[j].0);
                } else {
                    assert(q[i].1 == es[es.len() - 1].0);
                }
            }
            assert forall|i: int, j: int| 0 <= i < j < q.len() implies (#[trigger] q[i]).1 != (
            #[trigger] q[j]).1 by {
                if j == prev.len() {
                    let a = choose|a: int| 0 <= a < e0.len() && prev[i].1 == e0[a].0;
                    assert(es[a].0 == q[i].1);
                } else {
                    assert(q[i] == prev[i] && q[j] == prev[j]);
                }
            }
        } else {
            assert forall|i: int| 0 <= i < prev.len() implies exists|j: int| 0 <= j < es.len() && (#[trigger] prev[i]).1 == es[j].0 by {
                let j = choose|j: int| 0 <= j < e0.len() && prev[i].1 == e0[j].0;
                assert(prev[i].1 == es[j].0);
            }
        }
    }
}

proof fn lemma_merge_hits_distinct(user: Seq<MatchModel>, sys: Seq<MatchModel>)
    requires
        hits_distinct(user),
        hits_distinct(sys),
    ensures
        hits_distinct(merge_hits(user, sys)),
{
    lemma_unseen_distinct(sys, user);
    let u = unseen(sys, user);
    let m = user + u;
    assert forall|i: int, j: int| 0 <= i < j < m.len() implies (#[trigger] m[i]).1 != (#[trigger] m[j]).1 by {
        if j >= user.len() {
            if i < user.len() {
                assert(m[j] == u[j - user.len()]);
                assert(!has_reading(user, u[j - user.len()].1));
                if m[i].1 == m[j].1 {
                    assert(user[i].1 == u[j - user.len()].1);
                }
            } else {
                assert(m[i] == u[i - user.len()] && m[j] == u[j - user.len()]);
            }
        } else {
            assert(m[i] == user[i] && m[j] == user[j]);
        }
    }
}

proof fn lemma_unseen_distinct(sys: Seq<MatchModel>, user: Seq<MatchModel>)
    requires
        hits_distinct(sys),
    ensures
        hits_distinct(unseen(sys, user)),
        forall|i: int| 0 <= i < unseen(sys, user).len() ==> !has_reading(user, (#[trigger] unseen(sys, user)[i]).1),
        forall|i: int|
            0 <= i < unseen(sys, user).len() ==> exists|j: int|
                0 <= j < sys.len() && (#[trigger] unseen(sys, user)[i]) == sys[j],
    decreases sys.len(),
{
    if sys.len() > 0 {
        let s0 = sys.drop_last();
        assert(hits_distinct(s0)) by {
            assert forall|i: int, j: int| 0 <= i < j < s0.len() implies (#[trigger] s0[i]).1 != (
            #[trigger] s0[j]).1 by {
                assert(s0[i] == sys[i] && s0[j] == sys[j]);
            }
        }
        lemma_unseen_distinct(s0, user);
        let prev = unseen(s0, user);
        if !has_reading(user, sys.last().1) {
            let q = prev.push(sys.last());
            assert forall|i: int| 0 <= i < q.len() implies exists|j: int| 0 <= j < sys.len() && #[trigger] q[i] == sys[j] by {
                if i < prev.len() {
                    let j = choose|j: int| 0 <= j < s0.len() && prev[i] == s0[j];
                    assert(q[i] == sys[j]);
                } else {
                    assert(q[i] == sys[sys.len() - 1]);
                }
            }
            assert forall|i: int| 0 <= i < q.len() implies !has_reading(user, (#[trigger] q[i]).1) by {
                if i < prev.len() {
                    assert(q[i] == prev[i]);
                }
            }
            assert forall|i: int, j: int| 0 <= i < j < q.len() implies (#[trigger] q[i]).1 != (
            #[trigger] q[j]).1 by {
                if j == prev.len() {
                    let a = choose|a: int| 0 <= a < s0.len() && prev[i] == s0[a];
                    assert(sys[a] == q[i]);
                    assert(sys[sys.len() - 1] == q[j]);
                } else {
                    assert(q[i] == prev[i] && q[j] == prev[j]);
                }
            }
        } else {
            assert forall|i: int| 0 <= i < prev.len() implies exists|j: int| 0 <= j < sys.len() && #[trigger] prev[i] == sys[j] by {
                let j = choose|j: int| 0 <= j < s0.len() && prev[i] == s0[j];
                assert(prev[i] == sys[j]);
            }
        }
    }
}

/// After indexing, a prefix search lists each matching reading once: a
/// reading present in both tiers appears at its user-tier position only.
pub proof fn law_prefix_matches_distinct(
    s: &DictionarySnapshot,
    user: Seq<EntryModel>,
    system: Seq<EntryModel>,
    chars: Seq<char>,
    start: int,
    okuri: char,
)
    requires
        snapshot_holds(s, user, system),
    ensures
        hits_distinct(s.spec_prefix_matches(chars, start)),
        hits_distinct(s.spec_okuri_ari_prefix_matches(chars, start, okuri)),
{
    if 0 <= start < chars.len() {
        let k = key_of(chars[start]);
        let sl = s.system_layer();
        let ul = s.user_layer();
        lemma_grouped_keys_distinct(nashi_of(system), DictionarySource::System);
        lemma_grouped_keys_distinct(ari_of(system), DictionarySource::System);
        lemma_grouped_keys_distinct(nashi_of(user), DictionarySource::User);
        lemma_grouped_keys_distinct(ari_of(user), DictionarySource::User);
        lemma_merged_keys_distinct(grouped(nashi_of(user), DictionarySource::User), &sl.nashi);
        lemma_merged_keys_distinct(grouped(ari_of(user), DictionarySource::User), &sl.ari);
        let sn = grouped(nashi_of(system), DictionarySource::System);
        let sa = grouped(ari_of(system), DictionarySource::System);
        let un = merged_with(grouped(nashi_of(user), DictionarySource::User), &sl.nashi);
        let ua = merged_with(grouped(ari_of(user), DictionarySource::User), &sl.ari);
        assert(sl.nashi.group(k) == with_first(sn, k));
        assert(sl.ari.group(k) == with_first(sa, k));
        assert(ul.nashi.group(k) == with_first(un, k));
        assert(ul.ari.group(k) == with_first(ua, k));
        lemma_with_first_keys_distinct(sn, k);
        lemma_with_first_keys_distinct(sa, k);
        lemma_with_first_keys_distinct(un, k);
        lemma_with_first_keys_distinct(ua, k);
        lemma_nashi_hits_distinct(with_first(un, k), chars, start);
        lemma_nashi_hits_distinct(with_first(sn, k), chars, start);
        lemma_ari_hits_distinct(with_first(ua, k), chars, start, okuri);
        lemma_ari_hits_distinct(with_first(sa, k), chars, start, okuri);
        lemma_merge_hits_distinct(
            nashi_hits(with_first(un, k), chars, start),
            nashi_hits(with_first(sn, k), chars, start),
        );
        lemma_merge_hits_distinct(
            ari_hits(with_first(ua, k), chars, start, okuri),
            ari_hits(with_first(sa, k), chars, start, okuri),
        );
    }
}

/// A dictionary entry of `es` registers reading `r` (okuri-ari or not, as
/// `ari` says).
pub open spec fn registers(es: Seq<EntryModel>, r: Seq<char>, ari: bool) -> bool {
    exists|i: int| 0 <= i < es.len() && (#[trigger] es[i]).reading == r && es[i].is_okuri_ari == ari
}

proof fn lemma_first_seen_has(es: Seq<EntryModel>, i: int)
    requires
        0 <= i < es.len(),
    ensures
        first_seen_readings(es).contains(es[i].reading),
    decreases es.len(),
{
    let p = first_seen_readings(es.drop_last());
    if i == es.len() - 1 {
        if !p.contains(es[i].reading) {
            assert(first_seen_readings(es)[p.len() as int] == es[i].reading);
        }
    } else {
        lemma_first_seen_has(es.drop_last(), i);
        let j = choose|j: int| 0 <= j < p.len() && p[j] == es[i].reading;
        assert(first_seen_readings(es)[j] == es[i].reading);
    }
}

proof fn lemma_nashi_of_has(es: Seq<EntryModel>, i: int)
    requires
        0 <= i < es.len(),
        !es[i].is_okuri_ari,
    ensures
        nashi_of(es).contains(es[i]),
    decreases es.len(),
{
    let p = nashi_of(es.drop_last());
    if i == es.len() - 1 {
        assert(nashi_of(es)[p.len() as int] == es[i]);
    } else {
        lemma_nashi_of_has(es.drop_last(), i);
        let j = choose|j: int| 0 <= j < p.len() && p[j] == es.drop_last()[i];
        if !es.last().is_okuri_ari {
            assert(nashi_of(es)[j] == es[i]);
        } else {
            assert(nashi_of(es)[j] == es[i]);
        }
    }
}

proof fn lemma_ari_of_has(es: Seq<EntryModel>, i: int)
    requires
        0 <= i < es.len(),
        es[i].is_okuri_ari,
    ensures
        ari_of(es).contains(es[i]),
    decreases es.len(),
{
    let p = ari_of(es.drop_last());
    if i == es.len() - 1 {
        assert(ari_of(es)[p.len() as int] == es[i]);
    } else {
        lemma_ari_of_has(es.drop_last(), i);
        let j = choose|j: int| 0 <= j < p.len() && p[j] == es.drop_last()[i];
        assert(ari_of(es)[j] == es[i]);
    }
}

/// A registered reading is a key of the grouped entries.
proof fn lemma_grouped_key(es: Seq<EntryModel>, src: DictionarySource, r: Seq<char>)
    requires
        first_seen_readings(es).contains(r),
    ensures
        exists|j: int| 0 <= j < grouped(es, src).len() && (#[trigger] grouped(es, src)[j]).0 == r,
{
    let rs = first_seen_readings(es);
    let j = choose|j: int| 0 <= j < rs.len() && rs[j] == r;
    assert(grouped(es, src)[j].0 == r);
}

proof fn lemma_registered_key(es: Seq<EntryModel>, src: DictionarySource, r: Seq<char>, ari: bool)
    requires
        registers(es, r, ari),
    ensures
        ari ==> exists|j: int| 0 <= j < grouped(ari_of(es), src).len() && (#[trigger] grouped(ari_of(es), src)[j]).0 == r,
        !ari ==> exists|j: int| 0 <= j < grouped(nashi_of(es), src).len() && (#[trigger] grouped(nashi_of(es), src)[j]).0 == r,
{
    let i = choose|i: int| 0 <= i < es.len() && (#[trigger] es[i]).reading == r && es[i].is_okuri_ari == ari;
    if ari {
        lemma_ari_of_has(es, i);
        let a = ari_of(es);
        let j = choose|j: int| 0 <= j < a.len() && a[j] == es[i];
        lemma_first_seen_has(a, j);
        lemma_grouped_key(a, src, r);
    } else {
        lemma_nashi_of_has(es, i);
        let a = nashi_of(es);
        let j = choose|j: int| 0 <= j < a.len() && a[j] == es[i];
        lemma_first_seen_has(a, j);
        lemma_grouped_key(a, src, r);
    }
}

proof fn lemma_merged_key(gs: Seq<ReadingModel>, sys: &Bucket, r: Seq<char>)
    requires
        exists|j: int| 0 <= j < gs.len() && (#[trigger] gs[j]).0 == r,
    ensures
        exists|j: int| 0 <= j < merged_with(gs, sys).len() && (#[trigger] merged_with(gs, sys)[j]).0 == r,
{
    let j = choose|j: int| 0 <= j < gs.len() && (#[trigger] gs[j]).0 == r;
    assert(merged_with(gs, sys)[j].0 == r);
}

proof fn lemma_with_first_key(es: Seq<ReadingModel>, r: Seq<char>, k: u32)
    requires
        r.len() > 0,
        key_of(r[0]) == k,
        exists|j: int| 0 <= j < es.len() && (#[trigger] es[j]).0 == r,
    ensures
        exists|j: int| 0 <= j < with_first(es, k).len() && (#[trigger] with_first(es, k)[j]).0 == r,
    decreases es.len(),
{
    let j = choose|j: int| 0 <= j < es.len() && (#[trigger] es[j]).0 == r;
    let prev = with_first(es.drop_last(), k);
    if j == es.len() - 1 {
        assert(with_first(es, k)[prev.len() as int].0 == r);
    } else {
        assert(es.drop_last()[j].0 == r);
        lemma_with_first_key(es.drop_last(), r, k);
        let q = choose|q: int| 0 <= q < prev.len() && (#[trigger] prev[q]).0 == r;
        assert(with_first(es, k)[q].0 == r);
    }
}

proof fn lemma_nashi_hits_has(es: Seq<ReadingModel>, chars: Seq<char>, start: int, r: Seq<char>)
    requires
        spells_at(chars, start, r),
        exists|j: int| 0 <= j < es.len() && (#[trigger] es[j]).0 == r,
    ensures
        has_reading(nashi_hits(es, chars, start), r),
    decreases es.len(),
{
    let j = choose|j: int| 0 <= j < es.len() && (#[trigger] es[j]).0 == r;
    let prev = nashi_hits(es.drop_last(), chars, start);
    if j == es.len() - 1 {
        assert(nashi_hits(es, chars, start)[prev.len() as int].1 == r);
    } else {
        assert(es.drop_last()[j].0 == r);
        lemma_nashi_hits_has(es.drop_last(), chars, start, r);
        let q = choose|q: int| 0 <= q < prev.len() && (#[trigger] prev[q]).1 == r;
        assert(nashi_hits(es, chars, start)[q].1 == r);
    }
}

proof fn lemma_ari_hits_has(es: Seq<ReadingModel>, chars: Seq<char>, start: int, okuri: char, r: Seq<char>)
    requires
        ari_hit(r, chars, start, okuri),
        exists|j: int| 0 <= j < es.len() && (#[trigger] es[j]).0 == r,
    ensures
        has_reading(ari_hits(es, chars, start, okuri), r),
    decreases es.len(),
{
    let j = choose|j: int| 0 <= j < es.len() && (#[trigger] es[j]).0 == r;
    let prev = ari_hits(es.drop_last(), chars, start, okuri);
    if j == es.len() - 1 {
        assert(ari_hits(es, chars, start, okuri)[prev.len() as int].1 == r);
    } else {
        assert(es.drop_last()[j].0 == r);
        lemma_ari_hits_has(es.drop_last(), chars, start, okuri, r);
        let q = choose|q: int| 0 <= q < prev.len() && (#[trigger] prev[q]).1 == r;
        assert(ari_hits(es, chars, start, okuri)[q].1 == r);
    }
}

proof fn lemma_unseen_keeps(sys: Seq<MatchModel>, user: Seq<MatchModel>, r: Seq<char>)
    requires
        has_reading(sys, r),
        !has_reading(user, r),
    ensures
        has_reading(unseen(sys, user), r),
    decreases sys.len(),
{
    let j = choose|j: int| 0 <= j < sys.len() && (#[trigger] sys[j]).1 == r;
    let prev = unseen(sys.drop_last(), user);
    if j == sys.len() - 1 {
        assert(unseen(sys, user)[prev.len() as int].1 == r);
    } else {
        assert(sys.drop_last()[j].1 == r);
        lemma_unseen_keeps(sys.drop_last(), user, r);
        let q = choose|q: int| 0 <= q < prev.len() && (#[trigger] prev[q]).1 == r;
        assert(unseen(sys, user)[q].1 == r);
    }
}

proof fn lemma_merge_hits_has(user: Seq<MatchModel>, sys: Seq<MatchModel>, r: Seq<char>)
    requires
        has_reading(user, r) || has_reading(sys, r),
    ensures
        has_reading(merge_hits(user, sys), r),
{
    let m = merge_hits(user, sys);
    if has_reading(user, r) {
        let j = choose|j: int| 0 <= j < user.len() && (#[trigger] user[j]).1 == r;
        assert(m[j] == user[j]);
    } else {
        lemma_unseen_keeps(sys, user, r);
        let u = unseen(sys, user);
        let j = choose|j: int| 0 <= j < u.len() && (#[trigger] u[j]).1 == r;
        assert(m[user.len() + j] == u[j]);
    }
}

/// Every element of `merge_hits(user, sys)` is an element of `user` or of
/// `sys`.
proof fn lemma_merge_hits_from(user: Seq<MatchModel>, sys: Seq<MatchModel>)
    ensures
        forall|i: int|
            0 <= i < merge_hits(user, sys).len() ==> user.contains(#[trigger] merge_hits(user, sys)[i])
                || sys.contains(merge_hits(user, sys)[i]),
{
    lemma_unseen_from(sys, user);
    let m = merge_hits(user, sys);
    let u = unseen(sys, user);
    assert forall|i: int| 0 <= i < m.len() implies user.contains(#[trigger] m[i]) || sys.contains(m[i]) by {
        if i < user.len() {
            assert(m[i] == user[i]);
        } else {
            assert(m[i] == u[i - user.len()]);
        }
    }
}

proof fn lemma_unseen_from(sys: Seq<MatchModel>, user: Seq<MatchModel>)
    ensures
        forall|i: int| 0 <= i < unseen(sys, user).len() ==> sys.contains(#[trigger] unseen(sys, user)[i]),
    decreases sys.len(),
{
    if sys.len() > 0 {
        lemma_unseen_from(sys.drop_last(), user);
        let prev = unseen(sys.drop_last(), user);
        let u = unseen(sys, user);
        assert forall|i: int| 0 <= i < u.len() implies sys.contains(#[trigger] u[i]) by {
            if i < prev.len() {
                assert(u[i] == prev[i]);
                let j = choose|j: int| 0 <= j < sys.drop_last().len() && sys.drop_last()[j] == prev[i];
                assert(sys[j] == u[i]);
            } else {
                assert(u[i] == sys[sys.len() - 1]);
            }
        }
    }
}

proof fn lemma_nashi_hits_sound(es: Seq<ReadingModel>, chars: Seq<char>, start: int)
    ensures
        forall|i: int|
            0 <= i < nashi_hits(es, chars, start).len() ==> (#[trigger] nashi_hits(es, chars, start)[i]).0
                == nashi_hits(es, chars, start)[i].1.len() && spells_at(chars, start, nashi_hits(es, chars, start)[i].1),
    decreases es.len(),
{
    if es.len() > 0 {
        lemma_nashi_hits_sound(es.drop_last(), chars, start);
        let prev = nashi_hits(es.drop_last(), chars, start);
        let h = nashi_hits(es, chars, start);
        assert forall|i: int| 0 <= i < h.len() implies (#[trigger] h[i]).0 == h[i].1.len() && spells_at(chars, start, h[i].1) by {
            if i < prev.len() {
                assert(h[i] == prev[i]);
            }
        }
    }
}

proof fn lemma_ari_hits_sound(es: Seq<ReadingModel>, chars: Seq<char>, start: int, okuri: char)
    ensures
        forall|i: int|
            0 <= i < ari_hits(es, chars, start, okuri).len() ==> (#[trigger] ari_hits(es, chars, start, okuri)[i]).0
                == ari_hits(es, chars, start, okuri)[i].1.len() - 1 && ari_hit(ari_hits(es, chars, start, okuri)[i].1, chars, start, okuri),
    decreases es.len(),
{
    if es.len() > 0 {
        lemma_ari_hits_sound(es.drop_last(), chars, start, okuri);
        let prev = ari_hits(es.drop_last(), chars, start, okuri);
        let h = ari_hits(es, chars, start, okuri);
        assert forall|i: int| 0 <= i < h.len() implies (#[trigger] h[i]).0 == h[i].1.len() - 1 && ari_hit(h[i].1, chars, start, okuri) by {
            if i < prev.len() {
                assert(h[i] == prev[i]);
            }
        }
    }
}

/// Prefix search is complete: after indexing, every okuri-nashi reading that
/// the user or a system dictionary registers and that spells the input at
/// `start` is among the matches, whatever the other tier holds.
pub proof fn law_prefix_matches_complete(
    s: &DictionarySnapshot,
    user: Seq<EntryModel>,
    system: Seq<EntryModel>,
    chars: Seq<char>,
    start: int,
    r: Seq<char>,
)
    requires
        snapshot_holds(s, user, system),
        r.len() > 0,
        chars.subrange(start, start + r.len()) == r,
        0 <= start,
        start + r.len() <= chars.len(),
        registers(user, r, false) || registers(system, r, false),
    ensures
        exists|i: int|
            0 <= i < s.spec_prefix_matches(chars, start).len() && (#[trigger] s.spec_prefix_matches(chars, start)[i]).1 == r,
{
    let k = key_of(chars[start]);
    assert(chars[start] == chars.subrange(start, start + r.len())[0]);
    let sl = s.system_layer();
    let ul = s.user_layer();
    let sn = grouped(nashi_of(system), DictionarySource::System);
    let un = merged_with(grouped(nashi_of(user), DictionarySource::User), &sl.nashi);
    assert(sl.nashi.group(k) == with_first(sn, k));
    assert(ul.nashi.group(k) == with_first(un, k));
    if registers(user, r, false) {
        lemma_registered_key(user, DictionarySource::User, r, false);
        lemma_merged_key(grouped(nashi_of(user), DictionarySource::User), &sl.nashi, r);
        lemma_with_first_key(un, r, k);
        lemma_nashi_hits_has(with_first(un, k), chars, start, r);
    } else {
        lemma_registered_key(system, DictionarySource::System, r, false);
        lemma_with_first_key(sn, r, k);
        lemma_nashi_hits_has(with_first(sn, k), chars, start, r);
    }
    lemma_merge_hits_has(nashi_hits(with_first(un, k), chars, start), nashi_hits(with_first(sn, k), chars, start), r);
    let ms = s.spec_prefix_matches(chars, start);
    assert(ms == merge_hits(nashi_hits(with_first(un, k), chars, start), nashi_hits(with_first(sn, k), chars, start)));
    let j = choose|j: int| 0 <= j < ms.len() && (#[trigger] ms[j]).1 == r;
    assert(ms[j].1 == r);
}

/// Okuri-ari prefix search is complete: every okuri-ari reading of the user
/// or a system dictionary made of a stem that spells the input at `start`
/// followed by the okurigana letter `c` is among the matches.
pub proof fn law_okuri_ari_prefix_matches_complete(
    s: &DictionarySnapshot,
    user: Seq<EntryModel>,
    system: Seq<EntryModel>,
    chars: Seq<char>,
    start: int,
    c: char,
    r: Seq<char>,
)
    requires
        snapshot_holds(s, user, system),
        r.len() >= 2,
        r.last() == c,
        0 <= start,
        start + r.len() - 1 <= chars.len(),
        chars.subrange(start, start + r.len() - 1) == r.drop_last(),
        registers(user, r, true) || registers(system, r, true),
    ensures
        exists|i: int|
            0 <= i < s.spec_okuri_ari_prefix_matches(chars, start, c).len() && (#[trigger] s.spec_okuri_ari_prefix_matches(chars, start, c)[i]).1 == r,
{
    let k = key_of(chars[start]);
    assert(chars[start] == chars.subrange(start, start + r.len() - 1)[0]);
    assert(r.drop_last()[0] == r[0]);
    assert(ari_hit(r, chars, start, c));
    let sl = s.system_layer();
    let ul = s.user_layer();
    let sa = grouped(ari_of(system), DictionarySource::System);
    let ua = merged_with(grouped(ari_of(user), DictionarySource::User), &sl.ari);
    assert(sl.ari.group(k) == with_first(sa, k));
    assert(ul.ari.group(k) == with_first(ua, k));
    if registers(user, r, true) {
        lemma_registered_key(user, DictionarySource::User, r, true);
        lemma_merged_key(grouped(ari_of(user), DictionarySource::User), &sl.ari, r);
        lemma_with_first_key(ua, r, k);
        lemma_ari_hits_has(with_first(ua, k), chars, start, c, r);
    } else {
        lemma_registered_key(system, DictionarySource::System, r, true);
        lemma_with_first_key(sa, r, k);
        lemma_ari_hits_has(with_first(sa, k), chars, start, c, r);
    }
    lemma_merge_hits_has(ari_hits(with_first(ua, k), chars, start, c), ari_hits(with_first(sa, k), chars, start, c), r);
    let ms = s.spec_okuri_ari_prefix_matches(chars, start, c);
    assert(ms == merge_hits(ari_hits(with_first(ua, k), chars, start, c), ari_hits(with_first(sa, k), chars, start, c)));
    let j = choose|j: int| 0 <= j < ms.len() && (#[trigger] ms[j]).1 == r;
    assert(ms[j].1 == r);
}

/// Every prefix match covers exactly its reading, which spells the input at
/// `start`; every okuri-ari match is a stem that spells the input followed by
/// the request's okurigana letter, and covers the stem only.
pub proof fn law_prefix_matches_sound(s: &DictionarySnapshot, chars: Seq<char>, start: int, c: char)
    ensures
        forall|i: int|
            0 <= i < s.spec_prefix_matches(chars, start).len() ==> {
                let m = #[trigger] s.spec_prefix_matches(chars, start)[i];
                &&& m.0 == m.1.len()
                &&& 0 <= start
                &&& start + m.1.len() <= chars.len()
                &&& chars.subrange(start, start + m.1.len()) == m.1
            },
        forall|i: int|
            0 <= i < s.spec_okuri_ari_prefix_matches(chars, start, c).len() ==> {
                let m = #[trigger] s.spec_okuri_ari_prefix_matches(chars, start, c)[i];
                &&& m.1.len() >= 2
                &&& m.1.last() == c
                &&& m.0 == m.1.len() - 1
                &&& 0 <= start
                &&& start + m.0 <= chars.len()
                &&& chars.subrange(start, start + m.0) == m.1.drop_last()
            },
{
    if 0 <= start < chars.len() {
        let k = key_of(chars[start]);
        let ul = s.user_layer();
        let sl = s.system_layer();
        let nu = nashi_hits(ul.nashi.group(k), chars, start);
        let ns = nashi_hits(sl.nashi.group(k), chars, start);
        let au = ari_hits(ul.ari.group(k), chars, start, c);
        let as_ = ari_hits(sl.ari.group(k), chars, start, c);
        lemma_nashi_hits_sound(ul.nashi.group(k), chars, start);
        lemma_nashi_hits_sound(sl.nashi.group(k), chars, start);
        lemma_ari_hits_sound(ul.ari.group(k), chars, start, c);
        lemma_ari_hits_sound(sl.ari.group(k), chars, start, c);
        lemma_merge_hits_from(nu, ns);
        lemma_merge_hits_from(au, as_);
        let m1 = merge_hits(nu, ns);
        assert forall|i: int| 0 <= i < m1.len() implies {
            let m = #[trigger] m1[i];
            &&& m.0 == m.1.len()
            &&& 0 <= start
            &&& start + m.1.len() <= chars.len()
            &&& chars.subrange(start, start + m.1.len()) == m.1
        } by {
            if nu.contains(m1[i]) {
                let j = choose|j: int| 0 <= j < nu.len() && nu[j] == m1[i];
                assert(nu[j].0 == nu[j].1.len() && spells_at(chars, start, nu[j].1));
            } else {
                let j = choose|j: int| 0 <= j < ns.len() && ns[j] == m1[i];
                assert(ns[j].0 == ns[j].1.len() && spells_at(chars, start, ns[j].1));
            }
        }
        let m2 = merge_hits(au, as_);
        assert forall|i: int| 0 <= i < m2.len() implies {
            let m = #[trigger] m2[i];
            &&& m.1.len() >= 2
            &&& m.1.last() == c
            &&& m.0 == m.1.len() - 1
            &&& 0 <= start
            &&& start + m.0 <= chars.len()
            &&& chars.subrange(start, start + m.0) == m.1.drop_last()
        } by {
            if au.contains(m2[i]) {
                let j = choose|j: int| 0 <= j < au.len() && au[j] == m2[i];
                assert(au[j].0 == au[j].1.len() - 1 && ari_hit(au[j].1, chars, start, c));
            } else {
                let j = choose|j: int| 0 <= j < as_.len() && as_[j] == m2[i];
                assert(as_[j].0 == as_[j].1.len() - 1 && ari_hit(as_[j].1, chars, start, c));
            }
        }
    }
}

// ---------------------------------------------------------------------------
// Executable code
// ---------------------------------------------------------------------------

fn hash_chars(s: &[char]) -> (h: u64)
    ensures
        h == reading_hash(s@),
{
    let mut h: u64 = 0;
    let mut i: usize = 0;
    assert(s@.take(0) =~= Seq::<char>::empty());
    while i < s.len()
        invariant
            0 <= i <= s@.len(),
            h == reading_hash(s@.take(i as int)),
            h < 1_000_000_007,
        decreases s.len() - i,
    {
        assert(s@.take(i + 1).drop_last() =~= s@.take(i as int));
        let c: u32 = s[i] as u32;
        assert(c < 0x110000) by {
            vstd::utf8::char_is_scalar(s@[i as int]);
        }
        h = (h * 31 + c as u64) % 1_000_000_007;
        i = i + 1;
    }
    assert(s@.take(s@.len() as int) =~= s@);
    h
}

pub fn partition_okuri(entries: &[ParsedEntry]) -> (r: (Vec<&ParsedEntry>, Vec<&ParsedEntry>))
    ensures
        r.0@.map_values(|e: &ParsedEntry| e@) == nashi_of(parsed_view(entries@)),
        r.1@.map_values(|e: &ParsedEntry| e@) == ari_of(parsed_view(entries@)),
{
    let ghost es = parsed_view(entries@);
    let mut nashi: Vec<&ParsedEntry> = Vec::new();
    let mut ari: Vec<&ParsedEntry> = Vec::new();
    let mut i: usize = 0;
    while i < entries.len()
        invariant
            0 <= i <= entries@.len(),
            es == parsed_view(entries@),
            nashi@.map_values(|e: &ParsedEntry| e@) == nashi_of(es.take(i as int)),
            ari@.map_values(|e: &ParsedEntry| e@) == ari_of(es.take(i as int)),
        decreases entries.len() - i,
    {
        assert(es.take(i + 1).drop_last() =~= es.take(i as int));
        assert(es.take(i + 1).last() == entries@[i as int]@);
        let e = &entries[i];
        if e.is_okuri_ari {
            let ghost before = ari@.map_values(|e: &ParsedEntry| e@);
            ari.push(e);
            assert(ari@.map_values(|e: &ParsedEntry| e@) =~= before.push(e@));
        } else {
            let ghost before = nashi@.map_values(|e: &ParsedEntry| e@);
            nashi.push(e);
            assert(nashi@.map_values(|e: &ParsedEntry| e@) =~= before.push(e@));
        }
        i = i + 1;
    }
    assert(es.take(entries@.len() as int) =~= es);
    (nashi, ari)
}


fn same_chars(a: &[char], b: &[char]) -> (r: bool)
    ensures
        r == (a@ == b@),
{
    if a.len() != b.len() {
        return false;
    }
    let mut i: usize = 0;
    while i < a.len()
        invariant
            a@.len() == b@.len(),
            0 <= i <= a@.len(),
            forall|j: int| 0 <= j < i ==> a@[j] == b@[j],
        decreases a.len() - i,
    {
        if a[i] != b[i] {
            return false;
        }
        i = i + 1;
    }
    assert(a@ =~= b@);
    true
}

/// Append to `cands` (holding `ts` tagged with `source`) the texts of
/// `texts` not yet listed.
fn add_texts(
    cands: &mut Vec<Candidate>,
    texts: &Vec<String>,
    source: DictionarySource,
    Ghost(ts): Ghost<Seq<Seq<char>>>,
)
    requires
        cands_view(old(cands)@) == tag(ts, source),
    ensures
        cands_view(final(cands)@) == tag(
            add_unique(ts, texts@.map_values(|s: String| s@)),
            source,
        ),
{
    let ghost xs = texts@.map_values(|s: String| s@);
    let mut j: usize = 0;
    assert(xs.take(0) =~= Seq::<Seq<char>>::empty());
    while j < texts.len()
        invariant
            0 <= j <= texts@.len(),
            xs == texts@.map_values(|s: String| s@),
            cands_view(cands@) == tag(add_unique(ts, xs.take(j as int)), source),
        decreases texts.len() - j,
    {
        let ghost acc = add_unique(ts, xs.take(j as int));
        assert(xs.take(j + 1).drop_last() =~= xs.take(j as int));
        assert(xs.take(j + 1).last() == texts@[j as int]@);
        let t = &texts[j];
        assert(tag(acc, source).len() == acc.len());
        let mut seen = false;
        let mut q: usize = 0;
        while q < cands.len()
            invariant
                0 <= q <= cands@.len(),
                cands_view(cands@) == tag(acc, source),
                acc.len() == cands@.len(),
                seen == (exists|w: int| 0 <= w < q && acc[w] == t@),
            decreases cands.len() - q,
        {
            assert(cands_view(cands@)[q as int] == cands@[q as int]@);
            assert(tag(acc, source)[q as int] == (acc[q as int], source));
            assert(acc[q as int] == cands@[q as int].text@);
            if cands[q].text == *t {
                seen = true;
            }
            q = q + 1;
        }
        assert(seen == acc.contains(t@));
        if !seen {
            let ghost before = cands@;
            cands.push(Candidate::new(t.clone(), source));
            assert(cands_view(cands@) =~= cands_view(before).push((t@, source)));
            assert(tag(acc.push(t@), source) =~= tag(acc, source).push((t@, source)));
        }
        j = j + 1;
    }
    assert(xs.take(texts@.len() as int) =~= xs);
}

/// Group entries by reading in first-seen order, tagging each candidate with
/// `source` and dropping duplicate texts within a reading. Every parsed entry
/// has at least one candidate, so each group ends up non-empty.
pub fn group_by_reading(entries: &[&ParsedEntry], source: DictionarySource) -> (r: Vec<
    (String, Vec<Candidate>),
>)
    ensures
        groups_view(r@) == grouped(entries@.map_values(|e: &ParsedEntry| e@), source),
{
    let ghost es = entries@.map_values(|e: &ParsedEntry| e@);
    let mut groups: Vec<(String, Vec<Candidate>)> = Vec::new();
    let mut keys: Vec<Vec<char>> = Vec::new();
    let mut index: HashMap<u64, Vec<usize>> = HashMap::new();
    let mut i: usize = 0;
    assert(es.take(0) =~= Seq::<EntryModel>::empty());
    assert(groups_view(groups@) =~= grouped(es.take(0), source));
    while i < entries.len()
        invariant
            0 <= i <= entries@.len(),
            es == entries@.map_values(|e: &ParsedEntry| e@),
            groups@.len() == keys@.len(),
            forall|g: int| 0 <= g < keys@.len() ==> (#[trigger] keys@[g])@ == groups@[g].0@,
            groups_view(groups@) == grouped(es.take(i as int), source),
            forall|h: u64, t: int|
                index@.contains_key(h) && 0 <= t < index@[h]@.len() ==> #[trigger] index@[h]@[t]
                    < keys@.len(),
            forall|g: int|
                0 <= g < keys@.len() ==> index@.contains_key(reading_hash(#[trigger] keys@[g]@))
                    && index@[reading_hash(keys@[g]@)]@.contains(g as usize),
        decreases entries.len() - i,
    {
        let ghost pre = es.take(i as int);
        let ghost e = es[i as int];
        assert(es.take(i + 1).drop_last() =~= pre);
        assert(es.take(i + 1).last() == e);
        let entry = entries[i];
        assert(entry@ == e);
        let rc = chars_of(entry.reading.as_str());
        let h = hash_chars(rc.as_slice());
        let mut found: Option<usize> = None;
        match index.get(&h) {
            Some(list) => {
                assert forall|g: int|
                    0 <= g < keys@.len() && keys@[g]@ == rc@ implies list@.contains(g as usize) by {
                    assert(index@[reading_hash(keys@[g]@)]@.contains(g as usize));
                }
                let mut t: usize = 0;
                while t < list.len() && found.is_none()
                    invariant
                        0 <= t <= list@.len(),
                        index@.contains_key(h),
                        list@ == index@[h]@,
                        forall|h2: u64, t2: int|
                            index@.contains_key(h2) && 0 <= t2 < index@[h2]@.len()
                                ==> #[trigger] index@[h2]@[t2] < keys@.len(),
                        forall|t2: int| 0 <= t2 < t ==> keys@[list@[t2] as int]@ != rc@,
                        found matches Some(g) ==> g < keys@.len() && keys@[g as int]@ == rc@,
                        forall|g: int|
                            0 <= g < keys@.len() && keys@[g]@ == rc@ ==> list@.contains(g as usize),
                    decreases (list@.len() - t) + (if found is None { 1int } else { 0int }),
                {
                    let g = list[t];
                    assert(g < keys@.len());
                    if same_chars(keys[g].as_slice(), rc.as_slice()) {
                        found = Some(g);
                    } else {
                        t = t + 1;
                    }
                }
                proof {
                    if found is None {
                        assert(t == list@.len());
                        assert forall|g: int| 0 <= g < keys@.len() implies keys@[g]@ != rc@ by {
                            if keys@[g]@ == rc@ {
                                assert(list@.contains(g as usize));
                                let t2 = choose|t2: int| 0 <= t2 < list@.len() && list@[t2] == g as usize;
                                assert(t2 < t);
                                assert(keys@[list@[t2] as int]@ != rc@);
                                assert(g < keys.len());
                                assert(list@[t2] as int == g);
                            }
                        }
                    }
                }
            },
            None => {
                assert forall|g: int| 0 <= g < keys@.len() implies keys@[g]@ != rc@ by {
                    if keys@[g]@ == rc@ {
                        assert(index@.contains_key(reading_hash(keys@[g]@)));
                    }
                }
            },
        }
        let ghost fs = first_seen_readings(pre);
        proof {
            lemma_first_seen_distinct(pre);
            assert(groups_view(groups@).len() == groups@.len());
            assert(grouped(pre, source).len() == fs.len());
            assert(fs.len() == groups@.len());
            assert forall|g: int| 0 <= g < fs.len() implies fs[g] == #[trigger] keys@[g]@ by {
                assert(groups_view(groups@)[g].0 == fs[g]);
            }
        }
        match found {
            Some(g) => {
                let ghost ts = texts_of_reading(pre, e.reading);
                assert(groups_view(groups@)[g as int] == (e.reading, tag(ts, source)));
                assert(cands_view(groups@[g as int].1@) == tag(ts, source));
                let ghost old_groups = groups@;
                add_texts(&mut groups[g].1, &entry.candidates, source, Ghost(ts));
                proof {
                    let xs = entry.candidates@.map_values(|s: String| s@);
                    assert(xs == e.candidates);
                    assert forall|j: int| 0 <= j < groups@.len() implies groups_view(groups@)[j]
                        == grouped(es.take(i + 1), source)[j] by {
                        assert(first_seen_readings(es.take(i + 1)) == fs) by {
                            assert(fs[g as int] == e.reading);
                        }
                        if j != g {
                            assert(groups@[j] == old_groups[j]);
                            assert(fs[j] != e.reading) by {
                                assert(fs[g as int] == e.reading);
                            }
                            assert(texts_of_reading(es.take(i + 1), fs[j]) == texts_of_reading(pre, fs[j]));
                            assert(groups_view(old_groups)[j] == grouped(pre, source)[j]);
                        } else {
                            assert(groups@[j].0 == old_groups[j].0);
                            assert(texts_of_reading(es.take(i + 1), e.reading) == add_unique(ts, e.candidates));
                            assert(fs[j] == e.reading);
                        }
                    }
                    assert(fs.contains(e.reading)) by {
                        assert(fs[g as int] == e.reading);
                    }
                    assert(first_seen_readings(es.take(i + 1)) == fs);
                    assert forall|j: int| 0 <= j < fs.len() && j != g implies fs[j] != e.reading by {
                        assert(fs[g as int] == e.reading);
                    }
                    assert(groups_view(groups@) =~= grouped(es.take(i + 1), source));
                }
            },
            None => {
                proof {
                    assert(!fs.contains(e.reading)) by {
                        if fs.contains(e.reading) {
                            let j = choose|j: int| 0 <= j < fs.len() && fs[j] == e.reading;
                            assert(keys@[j]@ == rc@);
                        }
                    }
                    lemma_texts_absent(pre, e.reading);
                }
                let mut cands: Vec<Candidate> = Vec::new();
                assert(cands_view(cands@) =~= tag(Seq::<Seq<char>>::empty(), source));
                add_texts(&mut cands, &entry.candidates, source, Ghost(Seq::<Seq<char>>::empty()));
                let ng: usize = groups.len();
                let ghost old_groups = groups@;
                let ghost old_keys = keys@;
                let ghost old_index = index@;
                groups.push((entry.reading.clone(), cands));
                keys.push(rc);
                let mut list: Vec<usize> = match index.remove(&h) {
                    Some(l) => l,
                    None => Vec::new(),
                };
                assert(old_index.contains_key(h) ==> list@ == old_index[h]@);
                list.push(ng);
                index.insert(h, list);
                proof {
                    assert(first_seen_readings(es.take(i + 1)) == fs.push(e.reading));
                    assert forall|j: int| 0 <= j < fs.len() implies fs[j] != e.reading by {}
                    let xs = entry.candidates@.map_values(|s: String| s@);
                    assert(xs == e.candidates);
                    assert forall|j: int| 0 <= j < groups@.len() implies groups_view(groups@)[j]
                        == grouped(es.take(i + 1), source)[j] by {
                        if j < ng {
                            assert(groups@[j] == old_groups[j]);
                            assert(fs[j] != e.reading);
                            assert(texts_of_reading(es.take(i + 1), fs[j]) == texts_of_reading(pre, fs[j]));
                            assert(groups_view(old_groups)[j] == grouped(pre, source)[j]);
                        } else {
                            assert(texts_of_reading(es.take(i + 1), e.reading) == add_unique(Seq::<Seq<char>>::empty(), e.candidates));
                        }
                    }
                    assert(groups_view(groups@) =~= grouped(es.take(i + 1), source));
                    assert forall|h2: u64, t2: int|
                        index@.contains_key(h2) && 0 <= t2 < index@[h2]@.len()
                            implies #[trigger] index@[h2]@[t2] < keys@.len() by {
                        if h2 != h {
                            assert(index@[h2] == old_index[h2]);
                        }
                    }
                    assert forall|g: int|
                        0 <= g < keys@.len() implies index@.contains_key(reading_hash(#[trigger] keys@[g]@))
                            && index@[reading_hash(keys@[g]@)]@.contains(g as usize) by {
                        if g < ng {
                            assert(keys@[g] == old_keys[g]);
                            let hg = reading_hash(keys@[g]@);
                            assert(old_index.contains_key(hg) && old_index[hg]@.contains(g as usize));
                            if hg == h {
                                let w = choose|w: int| 0 <= w < old_index[hg]@.len() && old_index[hg]@[w] == g as usize;
                                assert(index@[hg]@[w] == g as usize);
                            } else {
                                assert(index@[hg] == old_index[hg]);
                            }
                        } else {
                            assert(keys@[g]@ == rc@);
                            assert(index@[h]@[index@[h]@.len() - 1] == ng);
                        }
                    }
                }
            },
        }
        i = i + 1;
    }
    assert(es.take(entries@.len() as int) =~= es);
    groups
}


/// Append to `cands` the candidates of `more` whose text is not listed yet.
fn merge_candidates(cands: &mut Vec<Candidate>, more: &[Candidate])
    ensures
        cands_view(final(cands)@) == merge_texts(cands_view(old(cands)@), cands_view(more@)),
{
    let ghost base = cands_view(cands@);
    let ghost mv = cands_view(more@);
    let mut j: usize = 0;
    assert(mv.take(0) =~= Seq::<CandModel>::empty());
    while j < more.len()
        invariant
            0 <= j <= more@.len(),
            mv == cands_view(more@),
            base == cands_view(old(cands)@),
            cands_view(cands@) == merge_texts(base, mv.take(j as int)),
        decreases more.len() - j,
    {
        assert(mv.take(j + 1).drop_last() =~= mv.take(j as int));
        assert(mv.take(j + 1).last() == more@[j as int]@);
        let ghost acc = cands_view(cands@);
        let c = &more[j];
        let mut seen = false;
        let mut q: usize = 0;
        while q < cands.len()
            invariant
                0 <= q <= cands@.len(),
                acc == cands_view(cands@),
                seen == (exists|w: int| 0 <= w < q && acc[w].0 == c.text@),
            decreases cands.len() - q,
        {
            assert(acc[q as int] == cands@[q as int]@);
            if cands[q].text == c.text {
                seen = true;
            }
            q = q + 1;
        }
        assert(seen == has_text(acc, c.text@)) by {
            if has_text(acc, c.text@) {
                let w = choose|w: int| 0 <= w < acc.len() && (#[trigger] acc[w]).0 == c.text@;
                assert(acc[w].0 == c.text@);
            }
        }
        if !seen {
            cands.push(c.duplicate());
            assert(cands_view(cands@) =~= acc.push(c@));
        }
        j = j + 1;
    }
    assert(mv.take(more@.len() as int) =~= mv);
}

/// Append the system tier's candidates for each user reading after the user's
/// own (deduped by text), scoped to the readings the user dictionary touches.
pub fn merge_with_system(user_groups: Vec<(String, Vec<Candidate>)>, system: &Bucket) -> (r: Vec<
    (String, Vec<Candidate>),
>)
    ensures
        groups_view(r@) == merged_with(groups_view(user_groups@), system),
{
    let ghost gv = groups_view(user_groups@);
    let mut out: Vec<(String, Vec<Candidate>)> = Vec::new();
    let mut rest = user_groups;
    let mut rev: Vec<(String, Vec<Candidate>)> = Vec::new();
    let n: usize = rest.len();
    let ghost orig = rest@;
    while rest.len() > 0
        invariant
            rev@.len() + rest@.len() == n,
            n == orig.len(),
            forall|j: int| 0 <= j < rest@.len() ==> #[trigger] rest@[j] == orig[j],
            forall|j: int| 0 <= j < rev@.len() ==> #[trigger] rev@[j] == orig[n - 1 - j],
        decreases rest.len(),
    {
        let p = rest.pop().unwrap();
        rev.push(p);
    }
    let mut i: usize = 0;
    assert(groups_view(out@) =~= merged_with(gv.take(0), system));
    while rev.len() > 0
        invariant
            i + rev@.len() == n,
            n == orig.len(),
            gv == groups_view(orig),
            forall|j: int| 0 <= j < rev@.len() ==> #[trigger] rev@[j] == orig[n - 1 - j],
            groups_view(out@) == merged_with(gv.take(i as int), system),
        decreases rev.len(),
    {
        let (reading, mut cands) = rev.pop().unwrap();
        assert(reading@ == gv[i as int].0 && cands_view(cands@) == gv[i as int].1);
        let rc = chars_of(reading.as_str());
        match system.find(rc.as_slice()) {
            Some(sys) => merge_candidates(&mut cands, sys),
            None => {},
        }
        let ghost before = groups_view(out@);
        out.push((reading, cands));
        assert(groups_view(out@) =~= before.push(merged_with(gv, system)[i as int]));
        assert(merged_with(gv.take(i + 1), system) =~= merged_with(gv.take(i as int), system).push(
            merged_with(gv, system)[i as int],
        ));
        i = i + 1;
    }
    assert(gv.take(n as int) =~= gv);
    out
}

pub fn build_system_layer(system: &[ParsedEntry]) -> (l: Layer)
    ensures
        system_layer_holds(&l, parsed_view(system@)),
{
    let (nashi, ari) = partition_okuri(system);
    let gn = group_by_reading(nashi.as_slice(), DictionarySource::System);
    let ga = group_by_reading(ari.as_slice(), DictionarySource::System);
    Layer::new(gn, ga)
}

pub fn build_user_layer(user: &[ParsedEntry], system: &Layer) -> (l: Layer)
    ensures
        user_layer_holds(&l, parsed_view(user@), system),
{
    let (nashi, ari) = partition_okuri(user);
    let gn = merge_with_system(group_by_reading(nashi.as_slice(), DictionarySource::User), &system.nashi);
    let ga = merge_with_system(group_by_reading(ari.as_slice(), DictionarySource::User), &system.ari);
    Layer::new(gn, ga)
}

pub fn build_snapshot(user: &[ParsedEntry], system: &[ParsedEntry]) -> (s: DictionarySnapshot)
    ensures
        snapshot_holds(&s, parsed_view(user@), parsed_view(system@)),
{
    let system_layer = Arc::new(build_system_layer(system));
    let user_layer = build_user_layer(user, &system_layer);
    DictionarySnapshot::from_layers(user_layer, system_layer)
}

// ---------------------------------------------------------------------------
// Dictionary file contents
// ---------------------------------------------------------------------------

#[derive(Debug, Clone, PartialEq, Eq)]
pub enum DictionaryLoaderError {
    /// The file at this path is neither UTF-8 nor EUC-JP.
    EncodingNotRecognized(String),
    /// The file at this path could not be read.
    Io { path: String, message: String },
}

/// The text of a dictionary file: UTF-8 when the bytes are well-formed
/// UTF-8, EUC-JP when they are well-formed EUC-JP, nothing otherwise.
pub open spec fn dictionary_text(bytes: Seq<u8>) -> Option<Seq<char>> {
    match utf8_text(bytes) {
        Some(t) => Some(t),
        None => euc_jp_text(bytes),
    }
}

/// Decode the contents of the dictionary file at `path`, trying UTF-8 first
/// and EUC-JP second.
pub fn decode_with_fallback(bytes: &[u8], path: &str) -> (r: Result<String, DictionaryLoaderError>)
    requires
        utf8_text(bytes@) is None ==> decodable_len(bytes@.len()),
    ensures
        match r {
            Ok(text) => dictionary_text(bytes@) == Some(text@),
            Err(e) => dictionary_text(bytes@) is None && (e matches DictionaryLoaderError::EncodingNotRecognized(p) && p@ == path@),
        },
{
    if let Some(text) = decode_utf8_strict(bytes) {
        return Ok(text);
    }
    match decode_euc_jp_strict(bytes) {
        Some(text) => Ok(text),
        None => Err(DictionaryLoaderError::EncodingNotRecognized(path.to_owned())),
    }
}

/// The entries of several dictionary texts, in order.
pub open spec fn texts_entries(texts: Seq<Seq<char>>) -> Seq<EntryModel>
    decreases texts.len(),
{
    if texts.len() == 0 {
        Seq::empty()
    } else {
        texts_entries(texts.drop_last()) + source_entries(texts.last())
    }
}

pub open spec fn strings_of(v: Seq<String>) -> Seq<Seq<char>> {
    v.map_values(|t: String| t@)
}

/// Parse and index the system dictionaries, given as their texts in
/// priority order.
pub fn system_layer_from_texts(texts: &[String]) -> (l: Layer)
    ensures
        system_layer_holds(&l, texts_entries(strings_of(texts@))),
{
    let ghost ts = strings_of(texts@);
    let mut all: Vec<ParsedEntry> = Vec::new();
    let mut k: usize = 0;
    assert(parsed_view(all@) =~= texts_entries(ts.take(0)));
    while k < texts.len()
        invariant
            k <= texts@.len(),
            ts == strings_of(texts@),
            parsed_view(all@) == texts_entries(ts.take(k as int)),
        decreases texts@.len() - k,
    {
        let mut es = parse(texts[k].as_str());
        let ghost before = all@;
        all.append(&mut es);
        proof {
            assert(ts.take(k + 1).drop_last() =~= ts.take(k as int));
            assert(ts.take(k + 1).last() == texts@[k as int]@);
            assert(parsed_view(all@) =~= parsed_view(before) + source_entries(texts@[k as int]@));
        }
        k = k + 1;
    }
    assert(ts.take(ts.len() as int) =~= ts);
    build_system_layer(all.as_slice())
}

/// Parse and index the user dictionary text over the system tier.
pub fn user_layer_from_text(text: &str, system: &Layer) -> (l: Layer)
    ensures
        user_layer_holds(&l, source_entries(text@), system),
{
    let es = parse(text);
    build_user_layer(es.as_slice(), system)
}

/// The snapshot of a user dictionary text and system dictionary texts.
pub fn snapshot_from_texts(user_text: &str, system_texts: &[String]) -> (s: DictionarySnapshot)
    ensures
        snapshot_holds(&s, source_entries(user_text@), texts_entries(strings_of(system_texts@))),
{
    let system_layer = Arc::new(system_layer_from_texts(system_texts));
    let user_layer = user_layer_from_text(user_text, &system_layer);
    DictionarySnapshot::from_layers(user_layer, system_layer)
}

} // verus!
