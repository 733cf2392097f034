//! The two-tier dictionary index queried by the generator.
//!
//! Each tier holds an okuri-nashi and an okuri-ari bucket. A bucket keeps its
//! entries grouped by the first character of the reading, in registration
//! order, which is what both the candidate lookup and the prefix search walk.

use vstd::prelude::*;
use std::collections::HashMap;
use std::sync::Arc;
use crate::dictionary::{Candidate, DictionarySource};
use crate::text::{chars_of, string_of};

verus! {

broadcast use vstd::std_specs::hash::group_hash_axioms;

/// A candidate as a value: its text and its tier.
pub type CandModel = (Seq<char>, DictionarySource);

/// A reading with its candidates, as a value.
pub type ReadingModel = (Seq<char>, Seq<CandModel>);

/// A prefix match as a value: the number of input characters it covers and
/// the dictionary reading.
pub type MatchModel = (nat, Seq<char>);

pub open spec fn cands_view(cs: Seq<Candidate>) -> Seq<CandModel> {
    cs.map_values(|c: Candidate| c@)
}

#[derive(Debug, Clone)]
pub struct PrefixMatch {
    pub length: usize,
    pub reading: String,
}

impl View for PrefixMatch {
    type V = MatchModel;

    open spec fn view(&self) -> MatchModel {
        (self.length as nat, self.reading@)
    }
}

pub open spec fn matches_view(ms: Seq<PrefixMatch>) -> Seq<MatchModel> {
    ms.map_values(|m: PrefixMatch| m@)
}

/// One indexed reading.
pub struct ReadingEntry {
    pub chars: Vec<char>,
    pub candidates: Vec<Candidate>,
}

impl View for ReadingEntry {
    type V = ReadingModel;

    open spec fn view(&self) -> ReadingModel {
        (self.chars@, cands_view(self.candidates@))
    }
}

pub open spec fn entries_view(es: Seq<ReadingEntry>) -> Seq<ReadingModel> {
    es.map_values(|e: ReadingEntry| e@)
}

/// The code point that keys a group.
pub open spec fn key_of(c: char) -> u32 {
    c as u32
}

/// The entries of `es` whose reading starts with the character keyed `k`,
/// in order.
pub open spec fn with_first(es: Seq<ReadingModel>, k: u32) -> Seq<ReadingModel>
    decreases es.len(),
{
    if es.len() == 0 {
        Seq::empty()
    } else {
        let prev = with_first(es.drop_last(), k);
        let r = es.last().0;
        if r.len() > 0 && key_of(r[0]) == k {
            prev.push(es.last())
        } else {
            prev
        }
    }
}

/// The entries of `es` whose reading is empty, in order.
pub open spec fn with_empty_reading(es: Seq<ReadingModel>) -> Seq<ReadingModel>
    decreases es.len(),
{
    if es.len() == 0 {
        Seq::empty()
    } else {
        let prev = with_empty_reading(es.drop_last());
        if es.last().0.len() == 0 {
            prev.push(es.last())
        } else {
            prev
        }
    }
}

/// The candidates of the last entry of `es` whose reading is `r`.
pub open spec fn lookup(es: Seq<ReadingModel>, r: Seq<char>) -> Option<Seq<CandModel>>
    decreases es.len(),
{
    if es.len() == 0 {
        None
    } else if es.last().0 == r {
        Some(es.last().1)
    } else {
        lookup(es.drop_last(), r)
    }
}

/// `r` spells `chars[start..start + |r|]`.
pub open spec fn spells_at(chars: Seq<char>, start: int, r: Seq<char>) -> bool {
    &&& 0 <= start
    &&& start + r.len() <= chars.len()
    &&& chars.subrange(start, start + r.len()) == r
}

/// Okuri-nashi prefix hits among `es`, in order.
pub open spec fn nashi_hits(es: Seq<ReadingModel>, chars: Seq<char>, start: int) -> Seq<MatchModel>
    decreases es.len(),
{
    if es.len() == 0 {
        Seq::empty()
    } else {
        let prev = nashi_hits(es.drop_last(), chars, start);
        let r = es.last().0;
        if spells_at(chars, start, r) {
            prev.push((r.len(), r))
        } else {
            prev
        }
    }
}

/// An okuri-ari reading `<stem><okuri>` whose stem (at least one character)
/// spells the input at `start`.
pub open spec fn ari_hit(r: Seq<char>, chars: Seq<char>, start: int, okuri: char) -> bool {
    &&& r.len() >= 2
    &&& r.last() == okuri
    &&& spells_at(chars, start, r.drop_last())
}

/// Okuri-ari prefix hits among `es`, in order; the length counts only the
/// stem.
pub open spec fn ari_hits(es: Seq<ReadingModel>, chars: Seq<char>, start: int, okuri: char) -> Seq<
    MatchModel,
>
    decreases es.len(),
{
    if es.len() == 0 {
        Seq::empty()
    } else {
        let prev = ari_hits(es.drop_last(), chars, start, okuri);
        let r = es.last().0;
        if ari_hit(r, chars, start, okuri) {
            prev.push(((r.len() - 1) as nat, r))
        } else {
            prev
        }
    }
}

pub open spec fn has_reading(ms: Seq<MatchModel>, r: Seq<char>) -> bool {
    exists|i: int| 0 <= i < ms.len() && (#[trigger] ms[i]).1 == r
}

/// The system hits whose reading the user hits do not already hold.
pub open spec fn unseen(sys: Seq<MatchModel>, user: Seq<MatchModel>) -> Seq<MatchModel>
    decreases sys.len(),
{
    if sys.len() == 0 {
        Seq::empty()
    } else {
        let prev = unseen(sys.drop_last(), user);
        if has_reading(user, sys.last().1) {
            prev
        } else {
            prev.push(sys.last())
        }
    }
}

/// User hits first, then the system hits for readings the user tier does
/// not produce.
pub open spec fn merge_hits(user: Seq<MatchModel>, sys: Seq<MatchModel>) -> Seq<MatchModel> {
    user + unseen(sys, user)
}

/// Candidates for okuri-nashi or okuri-ari readings, grouped by first
/// character. Readings without a first character are kept apart.
pub struct Bucket {
    groups: HashMap<u32, Vec<ReadingEntry>>,
    unkeyed: Vec<ReadingEntry>,
}

impl Bucket {
    /// The entries whose reading starts with the character keyed `k`.
    pub closed spec fn group(&self, k: u32) -> Seq<ReadingModel> {
        if self.groups@.contains_key(k) {
            entries_view(self.groups@[k]@)
        } else {
            Seq::empty()
        }
    }

    /// The entries with an empty reading.
    pub closed spec fn unkeyed(&self) -> Seq<ReadingModel> {
        entries_view(self.unkeyed@)
    }

    /// The candidates registered for reading `r`.
    pub open spec fn spec_lookup(&self, r: Seq<char>) -> Option<Seq<CandModel>> {
        if r.len() == 0 {
            lookup(self.unkeyed(), r)
        } else {
            lookup(self.group(key_of(r[0])), r)
        }
    }

    /// This bucket holds exactly the entries `es`, grouped by first
    /// character with their order kept.
    pub open spec fn holds(&self, es: Seq<ReadingModel>) -> bool {
        &&& forall|k: u32| #[trigger] self.group(k) == with_first(es, k)
        &&& self.unkeyed() == with_empty_reading(es)
    }

    pub fn empty() -> (b: Self)
        ensures
            b.holds(Seq::empty()),
    {
        let b = Bucket { groups: HashMap::new(), unkeyed: Vec::new() };
        assert(b.unkeyed() =~= Seq::<ReadingModel>::empty());
        b
    }

    /// Index a bucket from ordered (reading, candidates) pairs. Input order is
    /// preserved inside each group (drives the generator's split-order
    /// tiebreak).
    pub fn new(entries: Vec<(String, Vec<Candidate>)>) -> (b: Self)
        ensures
            b.holds(entries@.map_values(|p: (String, Vec<Candidate>)| (p.0@, cands_view(p.1@)))),
    {
        let ghost es = entries@.map_values(|p: (String, Vec<Candidate>)| (p.0@, cands_view(p.1@)));
        let mut b = Bucket::empty();
        let n: usize = entries.len();
        let ghost ev = entries@;
        let mut rest = entries;
        let mut i: usize = 0;
        // Entries are consumed from the back, so walk a reversed copy.
        let mut rev: Vec<(String, Vec<Candidate>)> = Vec::new();
        while rest.len() > 0
            invariant
                rev@.len() + rest@.len() == n,
                forall|j: int| 0 <= j < rest@.len() ==> #[trigger] rest@[j] == ev[j],
                forall|j: int| 0 <= j < rev@.len() ==> #[trigger] rev@[j] == ev[n - 1 - j],
                n == ev.len(),
            decreases rest.len(),
        {
            let p = rest.pop().unwrap();
            rev.push(p);
        }
        while rev.len() > 0
            invariant
                i + rev@.len() == n,
                n == ev.len(),
                forall|j: int| 0 <= j < rev@.len() ==> #[trigger] rev@[j] == ev[n - 1 - j],
                es == ev.map_values(|p: (String, Vec<Candidate>)| (p.0@, cands_view(p.1@))),
                b.holds(es.take(i as int)),
            decreases rev.len(),
        {
            let (reading, cands) = rev.pop().unwrap();
            assert(reading@ == es[i as int].0 && cands_view(cands@) == es[i as int].1);
            let chars = chars_of(reading.as_str());
            let ghost e = es[i as int];
            let ghost pre = es.take(i as int);
            assert(es.take(i + 1) =~= pre.push(e));
            let entry = ReadingEntry { chars, candidates: cands };
            assert(entry@ == e);
            let ghost old_b = b;
            if entry.chars.len() == 0 {
                b.unkeyed.push(entry);
                proof {
                    assert(es.take(i + 1).drop_last() =~= pre);
                    assert(es.take(i + 1).last() == e);
                    assert(entries_view(b.unkeyed@) =~= with_empty_reading(pre).push(e));
                    assert forall|k: u32| #[trigger] b.group(k) == with_first(es.take(i + 1), k) by {
                        assert(b.group(k) == old_b.group(k));
                    }
                }
            } else {
                let k: u32 = entry.chars[0] as u32;
                let ghost old_b_groups = b.groups@;
                assert(old_b.group(k) == with_first(pre, k));
                let mut g = match b.groups.remove(&k) {
                    Some(g) => g,
                    None => Vec::new(),
                };
                let ghost old_g = entries_view(g@);
                assert(old_g == old_b.group(k));
                g.push(entry);
                assert(entries_view(g@) =~= old_g.push(e));
                b.groups.insert(k, g);
                proof {
                    assert(es.take(i + 1).drop_last() =~= pre);
                    assert(es.take(i + 1).last() == e);
                    assert(b.unkeyed() == old_b.unkeyed());
                    assert forall|k2: u32| #[trigger] b.group(k2) == with_first(es.take(i + 1), k2) by {
                        if k2 != k {
                            assert(b.groups@.contains_key(k2) == old_b_groups.contains_key(k2));
                            assert(b.group(k2) == old_b.group(k2));
                        }
                    }
                }
            }
            i = i + 1;
        }
        assert(es.take(n as int) =~= es);
        b
    }
}


fn same_chars(a: &[char], b: &[char]) -> (r: bool)
    ensures
        r == (a@ == b@),
{
    if a.len() != b.len() {
        return false;
    }
    let mut i: usize = 0;
    while i < a.len()
        invariant
            a@.len() == b@.len(),
            0 <= i <= a@.len(),
            forall|j: int| 0 <= j < i ==> a@[j] == b@[j],
        decreases a.len() - i,
    {
        if a[i] != b[i] {
            return false;
        }
        i = i + 1;
    }
    assert(a@ =~= b@);
    true
}

/// Does `r` spell `chars[start..]`'s first `|r|` characters?
fn spells(chars: &[char], start: usize, r: &[char]) -> (b: bool)
    ensures
        b == spells_at(chars@, start as int, r@),
{
    if start > chars.len() || r.len() > chars.len() - start {
        return false;
    }
    let mut i: usize = 0;
    while i < r.len()
        invariant
            start + r@.len() <= chars@.len(),
            chars@.len() == chars.len(),
            0 <= i <= r@.len(),
            forall|j: int| 0 <= j < i ==> chars@[start + j] == r@[j],
        decreases r.len() - i,
    {
        if chars[start + i] != r[i] {
            assert(chars@.subrange(start as int, start + r@.len())[i as int] != r@[i as int]);
            return false;
        }
        i = i + 1;
    }
    assert(chars@.subrange(start as int, start + r@.len()) =~= r@);
    true
}

/// Does the stem `r[..r.len()-1]` spell the input at `start`, with `r`
/// ending in `okuri`?
fn ari_spells(chars: &[char], start: usize, r: &[char], okuri: char) -> (b: bool)
    ensures
        b == ari_hit(r@, chars@, start as int, okuri),
{
    if r.len() < 2 || r[r.len() - 1] != okuri {
        return false;
    }
    let stem = r.len() - 1;
    if start > chars.len() || stem > chars.len() - start {
        assert(r@.drop_last().len() == stem);
        return false;
    }
    let mut i: usize = 0;
    while i < stem
        invariant
            stem == r@.len() - 1,
            start + stem <= chars@.len(),
            chars@.len() == chars.len(),
            0 <= i <= stem,
            forall|j: int| 0 <= j < i ==> chars@[start + j] == r@[j],
        decreases stem - i,
    {
        if chars[start + i] != r[i] {
            assert(chars@.subrange(start as int, start + stem)[i as int] != r@.drop_last()[i as int]);
            return false;
        }
        i = i + 1;
    }
    assert(chars@.subrange(start as int, start + stem) =~= r@.drop_last());
    true
}

proof fn lemma_entries_view_take(es: Seq<ReadingEntry>, i: int)
    requires
        0 <= i <= es.len(),
    ensures
        entries_view(es.take(i)) == entries_view(es).take(i),
{
    assert(entries_view(es.take(i)) =~= entries_view(es).take(i));
}

/// Append the okuri-nashi hits of `group` to `out`.
fn collect_prefix_matches(
    group: &Vec<ReadingEntry>,
    chars: &[char],
    start: usize,
    out: &mut Vec<PrefixMatch>,
)
    ensures
        matches_view(final(out)@) == matches_view(old(out)@) + nashi_hits(
            entries_view(group@),
            chars@,
            start as int,
        ),
{
    let ghost es = entries_view(group@);
    let ghost base = matches_view(out@);
    let mut j: usize = 0;
    proof {
        lemma_entries_view_take(group@, 0);
        assert(base + nashi_hits(es.take(0), chars@, start as int) =~= base);
    }
    while j < group.len()
        invariant
            0 <= j <= group@.len(),
            es == entries_view(group@),
            matches_view(out@) == base + nashi_hits(es.take(j as int), chars@, start as int),
        decreases group.len() - j,
    {
        let e = &group[j];
        proof {
            lemma_entries_view_take(group@, j as int);
            lemma_entries_view_take(group@, j + 1);
            assert(es.take(j + 1).drop_last() =~= es.take(j as int));
            assert(es.take(j + 1).last() == e@);
        }
        if spells(chars, start, e.chars.as_slice()) {
            let m = PrefixMatch {
                length: e.chars.len(),
                reading: string_of(e.chars.as_slice(), 0, e.chars.len()),
            };
            assert(e.chars@.subrange(0, e.chars@.len() as int) =~= e.chars@);
            let ghost before = matches_view(out@);
            out.push(m);
            assert(matches_view(out@) =~= before.push(m@));
        }
        j = j + 1;
    }
    assert(es.take(group@.len() as int) =~= es);
}

/// Append the okuri-ari hits of `group` for okurigana letter `okuri` to `out`.
fn collect_okuri_ari_prefix_matches(
    group: &Vec<ReadingEntry>,
    chars: &[char],
    start: usize,
    okuri: char,
    out: &mut Vec<PrefixMatch>,
)
    ensures
        matches_view(final(out)@) == matches_view(old(out)@) + ari_hits(
            entries_view(group@),
            chars@,
            start as int,
            okuri,
        ),
{
    let ghost es = entries_view(group@);
    let ghost base = matches_view(out@);
    let mut j: usize = 0;
    proof {
        lemma_entries_view_take(group@, 0);
        assert(base + ari_hits(es.take(0), chars@, start as int, okuri) =~= base);
    }
    while j < group.len()
        invariant
            0 <= j <= group@.len(),
            es == entries_view(group@),
            matches_view(out@) == base + ari_hits(es.take(j as int), chars@, start as int, okuri),
        decreases group.len() - j,
    {
        let e = &group[j];
        proof {
            lemma_entries_view_take(group@, j as int);
            lemma_entries_view_take(group@, j + 1);
            assert(es.take(j + 1).drop_last() =~= es.take(j as int));
            assert(es.take(j + 1).last() == e@);
        }
        if ari_spells(chars, start, e.chars.as_slice(), okuri) {
            let m = PrefixMatch {
                length: e.chars.len() - 1,
                reading: string_of(e.chars.as_slice(), 0, e.chars.len()),
            };
            assert(e.chars@.subrange(0, e.chars@.len() as int) =~= e.chars@);
            let ghost before = matches_view(out@);
            out.push(m);
            assert(matches_view(out@) =~= before.push(m@));
        }
        j = j + 1;
    }
    assert(es.take(group@.len() as int) =~= es);
}

fn has_reading_in(ms: &Vec<PrefixMatch>, r: &String) -> (b: bool)
    ensures
        b == has_reading(matches_view(ms@), r@),
{
    let ghost mv = matches_view(ms@);
    let mut i: usize = 0;
    while i < ms.len()
        invariant
            0 <= i <= ms@.len(),
            mv == matches_view(ms@),
            forall|j: int| 0 <= j < i ==> mv[j].1 != r@,
        decreases ms.len() - i,
    {
        if ms[i].reading == *r {
            assert(mv[i as int].1 == r@);
            return true;
        }
        i = i + 1;
    }
    false
}

/// Append to `user` (already holding the user hits) those system hits whose
/// reading the user hits lack.
fn append_unseen(user: &mut Vec<PrefixMatch>, sys: Vec<PrefixMatch>)
    ensures
        matches_view(final(user)@) == merge_hits(matches_view(old(user)@), matches_view(sys@)),
{
    let ghost u = matches_view(user@);
    let ghost sv = matches_view(sys@);
    let mut extra: Vec<PrefixMatch> = Vec::new();
    let mut j: usize = 0;
    assert(unseen(sv.take(0), u) =~= Seq::<MatchModel>::empty());
    while j < sys.len()
        invariant
            0 <= j <= sys@.len(),
            sv == matches_view(sys@),
            u == matches_view(user@),
            matches_view(extra@) == unseen(sv.take(j as int), u),
        decreases sys.len() - j,
    {
        assert(sv.take(j + 1).drop_last() =~= sv.take(j as int));
        assert(sv.take(j + 1).last() == sys@[j as int]@);
        let m = &sys[j];
        if !has_reading_in(user, &m.reading) {
            let ghost before = matches_view(extra@);
            extra.push(PrefixMatch { length: m.length, reading: m.reading.clone() });
            assert(matches_view(extra@) =~= before.push(m@));
        }
        j = j + 1;
    }
    assert(sv.take(sys@.len() as int) =~= sv);
    let ghost uv = user@;
    let ghost ev = extra@;
    user.append(&mut extra);
    assert(matches_view(user@) =~= matches_view(uv) + matches_view(ev));
}


impl Bucket {
    /// The entries sharing the first character of `r` (or, for an empty `r`,
    /// the entries with empty readings).
    fn group_of<'a>(&'a self, r: &[char]) -> (g: Option<&'a Vec<ReadingEntry>>)
        ensures
            r@.len() == 0 ==> g == Some(&self.unkeyed),
            r@.len() > 0 ==> match g {
                Some(g) => entries_view(g@) == self.group(key_of(r@[0])),
                None => self.group(key_of(r@[0])) == Seq::<ReadingModel>::empty(),
            },
    {
        if r.len() == 0 {
            Some(&self.unkeyed)
        } else {
            let k: u32 = r[0] as u32;
            let g = self.groups.get(&k);
            proof {
                if g is None {
                    assert(self.group(k) =~= Seq::<ReadingModel>::empty());
                }
            }
            g
        }
    }

    /// The entries whose reading starts with `c`.
    fn group_for_char<'a>(&'a self, c: char) -> (g: Option<&'a Vec<ReadingEntry>>)
        ensures
            match g {
                Some(g) => entries_view(g@) == self.group(key_of(c)),
                None => self.group(key_of(c)) == Seq::<ReadingModel>::empty(),
            },
    {
        let k: u32 = c as u32;
        let g = self.groups.get(&k);
        proof {
            if g is None {
                assert(self.group(k) =~= Seq::<ReadingModel>::empty());
            }
        }
        g
    }

    /// The candidates registered for reading `r` (the last registration
    /// wins).
    pub(crate) fn find<'a>(&'a self, r: &[char]) -> (res: Option<&'a [Candidate]>)
        ensures
            match res {
                Some(c) => self.spec_lookup(r@) == Some(cands_view(c@)),
                None => self.spec_lookup(r@) is None,
            },
    {
        let g = match self.group_of(r) {
            Some(g) => g,
            None => {
                return None;
            },
        };
        let ghost es = entries_view(g@);
        assert(self.spec_lookup(r@) == lookup(es, r@));
        let mut i: usize = g.len();
        assert(es.take(i as int) =~= es);
        while i > 0
            invariant
                0 <= i <= g@.len(),
                es == entries_view(g@),
                self.spec_lookup(r@) == lookup(es.take(i as int), r@),
            decreases i,
        {
            assert(es.take(i as int).drop_last() =~= es.take(i - 1));
            assert(es.take(i as int).last() == g@[i - 1]@);
            if same_chars(g[i - 1].chars.as_slice(), r) {
                return Some(g[i - 1].candidates.as_slice());
            }
            i = i - 1;
        }
        None
    }
}

/// One dictionary tier: its okuri-nashi and okuri-ari buckets.
pub struct Layer {
    pub nashi: Bucket,
    pub ari: Bucket,
}

impl Layer {
    pub fn new(
        ordered_entries: Vec<(String, Vec<Candidate>)>,
        ordered_okuri_ari_entries: Vec<(String, Vec<Candidate>)>,
    ) -> (l: Self)
        ensures
            l.nashi.holds(
                ordered_entries@.map_values(|p: (String, Vec<Candidate>)| (p.0@, cands_view(p.1@))),
            ),
            l.ari.holds(
                ordered_okuri_ari_entries@.map_values(
                    |p: (String, Vec<Candidate>)| (p.0@, cands_view(p.1@)),
                ),
            ),
    {
        Layer { nashi: Bucket::new(ordered_entries), ari: Bucket::new(ordered_okuri_ari_entries) }
    }

    pub fn empty() -> (l: Self)
        ensures
            l.nashi.holds(Seq::empty()),
            l.ari.holds(Seq::empty()),
    {
        Layer { nashi: Bucket::empty(), ari: Bucket::empty() }
    }
}

/// The candidate list a two-tier lookup yields: the user tier's list when it
/// has the reading (that list is already merged with the system tier), the
/// system tier's list otherwise.
pub open spec fn tiered_lookup(user: &Bucket, system: &Bucket, r: Seq<char>) -> Seq<CandModel> {
    match user.spec_lookup(r) {
        Some(c) => c,
        None => match system.spec_lookup(r) {
            Some(c) => c,
            None => Seq::empty(),
        },
    }
}

/// The readings of `es`, in order.
pub open spec fn readings(es: Seq<ReadingModel>) -> Seq<Seq<char>> {
    es.map_values(|e: ReadingModel| e.0)
}

/// User readings first, then the system readings the user tier lacks.
pub open spec fn merge_readings(user: Seq<Seq<char>>, sys: Seq<Seq<char>>) -> Seq<Seq<char>>
    decreases sys.len(),
{
    if sys.len() == 0 {
        user
    } else {
        let prev = merge_readings(user, sys.drop_last());
        if user.contains(sys.last()) {
            prev
        } else {
            prev.push(sys.last())
        }
    }
}

/// An immutable view of the merged user and system dictionaries.
pub struct DictionarySnapshot {
    /// Readings the user dictionary contributes, each already merged with the
    /// system tier (user-first, deduped). Rebuilt on every user-dict change.
    user: Layer,
    /// The immutable system tier, built once and shared across reloads.
    system: Arc<Layer>,
}

impl DictionarySnapshot {
    pub closed spec fn user_layer(&self) -> &Layer {
        &self.user
    }

    pub closed spec fn system_layer(&self) -> &Layer {
        &*self.system
    }

    /// Okuri-nashi candidates of reading `r`.
    pub open spec fn spec_candidates(&self, r: Seq<char>) -> Seq<CandModel> {
        tiered_lookup(&self.user_layer().nashi, &self.system_layer().nashi, r)
    }

    /// Okuri-ari candidates of reading `r` (`r` includes the okurigana letter).
    pub open spec fn spec_okuri_ari_candidates(&self, r: Seq<char>) -> Seq<CandModel> {
        tiered_lookup(&self.user_layer().ari, &self.system_layer().ari, r)
    }

    /// Okuri-nashi readings that spell a prefix of `chars[start..]`.
    pub open spec fn spec_prefix_matches(&self, chars: Seq<char>, start: int) -> Seq<MatchModel> {
        if start < 0 || start >= chars.len() {
            Seq::empty()
        } else {
            let k = key_of(chars[start]);
            merge_hits(
                nashi_hits(self.user_layer().nashi.group(k), chars, start),
                nashi_hits(self.system_layer().nashi.group(k), chars, start),
            )
        }
    }

    /// Okuri-ari readings `<stem><okuri>` whose stem spells a prefix of
    /// `chars[start..]`.
    pub open spec fn spec_okuri_ari_prefix_matches(
        &self,
        chars: Seq<char>,
        start: int,
        okuri: char,
    ) -> Seq<MatchModel> {
        if start < 0 || start >= chars.len() {
            Seq::empty()
        } else {
            let k = key_of(chars[start]);
            merge_hits(
                ari_hits(self.user_layer().ari.group(k), chars, start, okuri),
                ari_hits(self.system_layer().ari.group(k), chars, start, okuri),
            )
        }
    }

    /// Okuri-nashi readings starting with `c`.
    pub open spec fn spec_readings_starting_with(&self, c: char) -> Seq<Seq<char>> {
        merge_readings(
            readings(self.user_layer().nashi.group(key_of(c))),
            readings(self.system_layer().nashi.group(key_of(c))),
        )
    }

    pub fn from_layers(user: Layer, system: Arc<Layer>) -> (s: Self)
        ensures
            s.user_layer() == user,
            s.system_layer() == *system,
    {
        Self { user, system }
    }

    /// The user layer's list is pre-merged with the system tier, so a hit
    /// there is authoritative; only fall through to system when the user
    /// dictionary doesn't mention this reading at all.
    fn candidates_in<'a>(user: &'a Bucket, system: &'a Bucket, reading: &[char]) -> (r: &'a [Candidate])
        ensures
            cands_view(r@) == tiered_lookup(user, system, reading@),
    {
        if let Some(cands) = user.find(reading) {
            return cands;
        }
        match system.find(reading) {
            Some(cands) => cands,
            None => {
                let e: &[Candidate] = &[];
                assert(cands_view(e@) =~= Seq::<CandModel>::empty());
                e
            },
        }
    }

    pub fn candidates(&self, reading: &str) -> (r: &[Candidate])
        ensures
            cands_view(r@) == self.spec_candidates(reading@),
    {
        let cs = chars_of(reading);
        Self::candidates_in(&self.user.nashi, &self.system.nashi, cs.as_slice())
    }

    pub fn okuri_ari_candidates(&self, reading: &str) -> (r: &[Candidate])
        ensures
            cands_view(r@) == self.spec_okuri_ari_candidates(reading@),
    {
        let cs = chars_of(reading);
        Self::candidates_in(&self.user.ari, &self.system.ari, cs.as_slice())
    }

    /// `candidates` for a reading given as characters.
    pub fn candidates_of_chars(&self, reading: &[char]) -> (r: &[Candidate])
        ensures
            cands_view(r@) == self.spec_candidates(reading@),
    {
        Self::candidates_in(&self.user.nashi, &self.system.nashi, reading)
    }

    /// `okuri_ari_candidates` for a reading given as characters.
    pub fn okuri_ari_candidates_of_chars(&self, reading: &[char]) -> (r: &[Candidate])
        ensures
            cands_view(r@) == self.spec_okuri_ari_candidates(reading@),
    {
        Self::candidates_in(&self.user.ari, &self.system.ari, reading)
    }

    /// Every okuri-nashi reading that matches a prefix of `chars[start...]`.
    /// User readings come first (in user order); system readings follow, minus
    /// any reading the user layer already produced — so a reading present in
    /// both tiers appears exactly once, at its user-tier position.
    pub fn prefix_matches(&self, chars: &[char], start: usize) -> (r: Vec<PrefixMatch>)
        ensures
            matches_view(r@) == self.spec_prefix_matches(chars@, start as int),
    {
        let mut result: Vec<PrefixMatch> = Vec::new();
        if start >= chars.len() {
            assert(matches_view(result@) =~= Seq::<MatchModel>::empty());
            return result;
        }
        let first = chars[start];
        let ghost k = key_of(first);
        assert(matches_view(result@) =~= Seq::<MatchModel>::empty());
        match self.user.nashi.group_for_char(first) {
            Some(g) => collect_prefix_matches(g, chars, start, &mut result),
            None => {},
        }
        assert(matches_view(result@) =~= nashi_hits(self.user.nashi.group(k), chars@, start as int));
        let mut sys: Vec<PrefixMatch> = Vec::new();
        assert(matches_view(sys@) =~= Seq::<MatchModel>::empty());
        match self.system.nashi.group_for_char(first) {
            Some(g) => collect_prefix_matches(g, chars, start, &mut sys),
            None => {},
        }
        assert(matches_view(sys@) =~= nashi_hits(self.system.nashi.group(k), chars@, start as int));
        append_unseen(&mut result, sys);
        result
    }

    /// Every okuri-ari reading whose hiragana stem matches a prefix of
    /// `chars[start...]` AND whose trailing ASCII letter equals `okuri_prefix`.
    /// `length` covers only the hiragana stem (the ASCII letter is in the key,
    /// not in the input). Same cross-tier dedup as `prefix_matches`.
    pub fn okuri_ari_prefix_matches(&self, chars: &[char], start: usize, okuri_prefix: char) -> (r:
        Vec<PrefixMatch>)
        ensures
            matches_view(r@) == self.spec_okuri_ari_prefix_matches(
                chars@,
                start as int,
                okuri_prefix,
            ),
    {
        let mut result: Vec<PrefixMatch> = Vec::new();
        if start >= chars.len() {
            assert(matches_view(result@) =~= Seq::<MatchModel>::empty());
            return result;
        }
        let first = chars[start];
        let ghost k = key_of(first);
        assert(matches_view(result@) =~= Seq::<MatchModel>::empty());
        match self.user.ari.group_for_char(first) {
            Some(g) => collect_okuri_ari_prefix_matches(g, chars, start, okuri_prefix, &mut result),
            None => {},
        }
        assert(matches_view(result@) =~= ari_hits(
            self.user.ari.group(k),
            chars@,
            start as int,
            okuri_prefix,
        ));
        let mut sys: Vec<PrefixMatch> = Vec::new();
        assert(matches_view(sys@) =~= Seq::<MatchModel>::empty());
        match self.system.ari.group_for_char(first) {
            Some(g) => collect_okuri_ari_prefix_matches(g, chars, start, okuri_prefix, &mut sys),
            None => {},
        }
        assert(matches_view(sys@) =~= ari_hits(
            self.system.ari.group(k),
            chars@,
            start as int,
            okuri_prefix,
        ));
        append_unseen(&mut result, sys);
        result
    }

    /// Every okuri-nashi reading whose first character is `c`: the user
    /// tier's in its order, then the system tier's that the user tier lacks.
    pub fn readings_starting_with(&self, c: char) -> (r: Vec<String>)
        ensures
            r@.map_values(|s: String| s@) == self.spec_readings_starting_with(c),
    {
        let ghost k = key_of(c);
        let mut out: Vec<String> = Vec::new();
        let ghost mut uview: Seq<Seq<char>> = Seq::empty();
        match self.user.nashi.group_for_char(c) {
            Some(g) => {
                let ghost es = entries_view(g@);
                let mut j: usize = 0;
                while j < g.len()
                    invariant
                        0 <= j <= g@.len(),
                        es == entries_view(g@),
                        out@.map_values(|s: String| s@) == readings(es).take(j as int),
                    decreases g.len() - j,
                {
                    let ghost before = out@.map_values(|s: String| s@);
                    out.push(string_of(g[j].chars.as_slice(), 0, g[j].chars.len()));
                    assert(g@[j as int].chars@.subrange(0, g@[j as int].chars@.len() as int) =~= g@[j as int].chars@);
                    assert(readings(es)[j as int] == g@[j as int].chars@);
                    assert(out@.map_values(|s: String| s@) =~= before.push(g@[j as int].chars@));
                    assert(out@.map_values(|s: String| s@) =~= readings(es).take(j + 1));
                    j = j + 1;
                }
                assert(readings(es).take(g@.len() as int) =~= readings(es));
            },
            None => {
                assert(out@.map_values(|s: String| s@) =~= readings(self.user.nashi.group(k)));
            },
        }
        let ghost u = readings(self.user.nashi.group(k));
        let n_user: usize = out.len();
        assert(out@.map_values(|s: String| s@) == u);
        match self.system.nashi.group_for_char(c) {
            Some(g) => {
                let ghost es = entries_view(g@);
                let ghost sr = readings(es);
                let mut j: usize = 0;
                assert(merge_readings(u, sr.take(0)) == u) by {
                    assert(sr.take(0) =~= Seq::<Seq<char>>::empty());
                }
                while j < g.len()
                    invariant
                        0 <= j <= g@.len(),
                        es == entries_view(g@),
                        sr == readings(es),
                        n_user == u.len(),
                        n_user <= out@.len(),
                        out@.map_values(|s: String| s@) == merge_readings(u, sr.take(j as int)),
                        out@.map_values(|s: String| s@).take(n_user as int) == u,
                    decreases g.len() - j,
                {
                    assert(sr.take(j + 1).drop_last() =~= sr.take(j as int));
                    assert(sr.take(j + 1).last() == g@[j as int].chars@);
                    let r = string_of(g[j].chars.as_slice(), 0, g[j].chars.len());
                    assert(g@[j as int].chars@.subrange(0, g@[j as int].chars@.len() as int) =~= g@[j as int].chars@);
                    let mut found = false;
                    let mut t: usize = 0;
                    while t < n_user
                        invariant
                            0 <= t <= n_user <= out@.len(),
                            out@.map_values(|s: String| s@).take(n_user as int) == u,
                            found == (exists|q: int| 0 <= q < t && u[q] == r@),
                        decreases n_user - t,
                    {
                        assert(u[t as int] == out@[t as int]@);
                        if out[t] == r {
                            found = true;
                        }
                        t = t + 1;
                    }
                    assert(found == u.contains(r@));
                    if !found {
                        let ghost before = out@.map_values(|s: String| s@);
                        out.push(r);
                        assert(out@.map_values(|s: String| s@) =~= before.push(r@));
                        assert(out@.map_values(|s: String| s@).take(n_user as int) =~= before.take(n_user as int));
                    }
                    j = j + 1;
                }
                assert(sr.take(g@.len() as int) =~= sr);
            },
            None => {
                assert(readings(self.system.nashi.group(k)) =~= Seq::<Seq<char>>::empty());
            },
        }
        out
    }

    pub fn empty() -> (s: Self)
        ensures
            s.user_layer().nashi.holds(Seq::empty()),
            s.user_layer().ari.holds(Seq::empty()),
            s.system_layer().nashi.holds(Seq::empty()),
            s.system_layer().ari.holds(Seq::empty()),
    {
        Self { user: Layer::empty(), system: Arc::new(Layer::empty()) }
    }
}

} // verus!