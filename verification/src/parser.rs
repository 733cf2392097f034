//! SKK dictionary text format: `<reading> /<cand>/<cand>;<annotation>/.../`.

use vstd::prelude::*;
use crate::dictionary::{EntryModel, ParsedEntry};
use crate::text::{chars_of, string_of};

verus! {

// ---------------------------------------------------------------------------
// Character classes
// ---------------------------------------------------------------------------

/// The SKK okuri-ari stem hiragana range U+3041..=U+3096.
pub open spec fn hiragana(c: char) -> bool {
    0x3041 <= (c as u32) && (c as u32) <= 0x3096
}

pub open spec fn ascii_lower(c: char) -> bool {
    'a' <= c && c <= 'z'
}

/// True if `c` is in the SKK okuri-ari stem hiragana range (U+3041..=U+3096).
pub fn is_hiragana(c: char) -> (b: bool)
    ensures
        b == hiragana(c),
{
    let u: u32 = c as u32;
    0x3041 <= u && u <= 0x3096
}

// ---------------------------------------------------------------------------
// Sequence vocabulary of the format
// ---------------------------------------------------------------------------

/// Rust's `str::split(sep)` on a character sequence: the pieces between
/// separators, always at least one (possibly empty) piece.
pub open spec fn split_on(s: Seq<char>, sep: char) -> Seq<Seq<char>>
    decreases s.len(),
{
    if s.len() == 0 {
        seq![Seq::<char>::empty()]
    } else {
        let prev = split_on(s.drop_last(), sep);
        if s.last() == sep {
            prev.push(Seq::<char>::empty())
        } else {
            prev.update(prev.len() - 1, prev.last().push(s.last()))
        }
    }
}

/// Index of the first occurrence of `c` in `s`.
pub open spec fn first_index(s: Seq<char>, c: char) -> Option<int>
    decreases s.len(),
{
    if s.len() == 0 {
        None
    } else {
        match first_index(s.drop_last(), c) {
            Some(i) => Some(i),
            None => if s.last() == c { Some(s.len() - 1) } else { None },
        }
    }
}

/// `s` without one trailing carriage return.
pub open spec fn strip_cr(s: Seq<char>) -> Seq<char> {
    if s.len() > 0 && s.last() == '\r' { s.drop_last() } else { s }
}

/// The text of a candidate field: everything before the first `;`
/// (what follows is an annotation).
pub open spec fn cut_annotation(s: Seq<char>) -> Seq<char> {
    match first_index(s, ';') {
        Some(i) => s.take(i),
        None => s,
    }
}

/// `[` followed by one or more okurigana hiragana: the opener of an
/// okuri-ari annotation block such as `[り/送/]`.
pub open spec fn is_block_opener(t: Seq<char>) -> bool {
    &&& t.len() >= 2
    &&& t[0] == '['
    &&& forall|j: int| 1 <= j < t.len() ==> hiragana(#[trigger] t[j])
}

/// One field of a candidate list, folded into (texts so far, inside an
/// okuri block).
pub open spec fn scan_step(state: (Seq<Seq<char>>, bool), raw: Seq<char>, okuri: bool) -> (
    Seq<Seq<char>>,
    bool,
) {
    let text = cut_annotation(raw);
    if text.len() == 0 {
        state
    } else if okuri && is_block_opener(text) {
        (state.0, true)
    } else if okuri && state.1 && text == seq![']'] {
        (state.0, false)
    } else if state.0.contains(text) {
        state
    } else {
        (state.0.push(text), state.1)
    }
}

/// All fields of a candidate list, left to right.
pub open spec fn scan_fields(fields: Seq<Seq<char>>, okuri: bool) -> (Seq<Seq<char>>, bool)
    decreases fields.len(),
{
    if fields.len() == 0 {
        (Seq::empty(), false)
    } else {
        scan_step(scan_fields(fields.drop_last(), okuri), fields.last(), okuri)
    }
}

/// The trailing okurigana letter of a reading `<hiragana><a-z>`.
pub open spec fn okuri_of(t: Seq<char>) -> Option<char> {
    if t.len() >= 2 && ascii_lower(t.last()) && hiragana(t[t.len() - 2]) {
        Some(t.last())
    } else {
        None
    }
}

/// What one dictionary line parses to.
pub open spec fn line_entry(raw: Seq<char>) -> Option<EntryModel> {
    let line = strip_cr(raw);
    if line.len() == 0 || line[0] == ';' {
        None
    } else {
        match first_index(line, ' ') {
            None => None,
            Some(p) => {
                let reading = line.take(p);
                let rest = line.skip(p + 1);
                if reading.len() == 0 {
                    None
                } else if !(rest.len() >= 2 && rest[0] == '/' && rest.last() == '/') {
                    None
                } else {
                    let inner = rest.subrange(1, rest.len() - 1);
                    let okuri = okuri_of(reading) is Some;
                    let texts = scan_fields(split_on(inner, '/'), okuri).0;
                    if inner.len() == 0 || texts.len() == 0 {
                        None
                    } else {
                        Some(EntryModel { reading, candidates: texts, is_okuri_ari: okuri })
                    }
                }
            },
        }
    }
}

/// Rust's `str::lines()`: split at `\n`, drop one `\r` before each `\n`,
/// and treat the final line ending as optional.
pub open spec fn lines_of(s: Seq<char>) -> Seq<Seq<char>> {
    let ps = split_on(s, '\n');
    let kept = if ps.last().len() == 0 { ps.drop_last() } else { ps };
    Seq::new(
        kept.len(),
        |i: int| if i < ps.len() - 1 { strip_cr(kept[i]) } else { kept[i] },
    )
}

pub open spec fn entries_of_lines(ls: Seq<Seq<char>>) -> Seq<EntryModel>
    decreases ls.len(),
{
    if ls.len() == 0 {
        Seq::empty()
    } else {
        let prev = entries_of_lines(ls.drop_last());
        match line_entry(ls.last()) {
            Some(e) => prev.push(e),
            None => prev,
        }
    }
}

/// What a whole dictionary text parses to: one entry per well-formed line.
pub open spec fn source_entries(s: Seq<char>) -> Seq<EntryModel> {
    entries_of_lines(lines_of(s))
}

pub open spec fn opt_entry_view(e: Option<ParsedEntry>) -> Option<EntryModel> {
    match e {
        Some(e) => Some(e@),
        None => None,
    }
}

// ---------------------------------------------------------------------------
// Lemmas on the vocabulary
// ---------------------------------------------------------------------------

proof fn lemma_split_nonempty(s: Seq<char>, sep: char)
    ensures
        split_on(s, sep).len() >= 1,
    decreases s.len(),
{
    if s.len() > 0 {
        lemma_split_nonempty(s.drop_last(), sep);
    }
}

proof fn lemma_first_index_found(s: Seq<char>, c: char, i: int)
    requires
        0 <= i < s.len(),
        s[i] == c,
        forall|j: int| 0 <= j < i ==> s[j] != c,
    ensures
        first_index(s, c) == Some(i),
    decreases s.len(),
{
    if i < s.len() - 1 {
        lemma_first_index_found(s.drop_last(), c, i);
    } else {
        lemma_first_index_absent(s.drop_last(), c);
    }
}

proof fn lemma_first_index_absent(s: Seq<char>, c: char)
    requires
        forall|j: int| 0 <= j < s.len() ==> s[j] != c,
    ensures
        first_index(s, c) is None,
    decreases s.len(),
{
    if s.len() > 0 {
        lemma_first_index_absent(s.drop_last(), c);
    }
}

// ---------------------------------------------------------------------------
// Executable parser
// ---------------------------------------------------------------------------

/// Returns the trailing ASCII lowercase letter if `text` ends with
/// `<hiragana><a-z>`, otherwise None. Hiragana range U+3041..U+3096 matches
/// the SKK okuri-ari stem set.
pub fn trailing_okuri(text: &str) -> (r: Option<char>)
    ensures
        r == okuri_of(text@),
{
    let cs = chars_of(text);
    trailing_okuri_in(&cs, 0, cs.len())
}

/// `trailing_okuri` of `cs[from..to]`.
pub fn trailing_okuri_in(cs: &[char], from: usize, to: usize) -> (r: Option<char>)
    requires
        from <= to <= cs@.len(),
    ensures
        r == okuri_of(cs@.subrange(from as int, to as int)),
{
    let ghost t = cs@.subrange(from as int, to as int);
    if to - from < 2 {
        return None;
    }
    let last = cs[to - 1];
    let before = cs[to - 2];
    assert(t.last() == last && t[t.len() - 2] == before);
    if 'a' <= last && last <= 'z' && is_hiragana(before) {
        Some(last)
    } else {
        None
    }
}

/// Index of the first `c` in `cs[from..to]`, as an absolute index.
fn find_char(cs: &[char], from: usize, to: usize, c: char) -> (r: Option<usize>)
    requires
        from <= to <= cs@.len(),
    ensures
        match r {
            Some(k) => {
                &&& from <= k < to
                &&& cs@[k as int] == c
                &&& forall|j: int| from <= j < k ==> cs@[j] != c
                &&& first_index(cs@.subrange(from as int, to as int), c) == Some(k - from)
            },
            None => {
                &&& forall|j: int| from <= j < to ==> cs@[j] != c
                &&& first_index(cs@.subrange(from as int, to as int), c) is None
            },
        },
{
    let ghost t = cs@.subrange(from as int, to as int);
    let mut i: usize = from;
    while i < to
        invariant
            from <= i <= to <= cs@.len(),
            t == cs@.subrange(from as int, to as int),
            forall|j: int| from <= j < i ==> cs@[j] != c,
        decreases to - i,
    {
        if cs[i] == c {
            proof {
                lemma_first_index_found(t, c, i - from);
            }
            return Some(i);
        }
        i = i + 1;
    }
    proof {
        lemma_first_index_absent(t, c);
    }
    None
}

fn all_hiragana(cs: &[char], from: usize, to: usize) -> (b: bool)
    requires
        from <= to <= cs@.len(),
    ensures
        b == (forall|j: int| from <= j < to ==> hiragana(#[trigger] cs@[j])),
{
    let mut i: usize = from;
    while i < to
        invariant
            from <= i <= to <= cs@.len(),
            forall|j: int| from <= j < i ==> hiragana(#[trigger] cs@[j]),
        decreases to - i,
    {
        if !is_hiragana(cs[i]) {
            return false;
        }
        i = i + 1;
    }
    true
}

fn contains_text(texts: &Vec<String>, t: &String) -> (b: bool)
    ensures
        b == texts@.map_values(|s: String| s@).contains(t@),
{
    let ghost tv = texts@.map_values(|s: String| s@);
    let mut i: usize = 0;
    while i < texts.len()
        invariant
            0 <= i <= texts.len(),
            tv == texts@.map_values(|s: String| s@),
            forall|j: int| 0 <= j < i ==> tv[j] != t@,
        decreases texts.len() - i,
    {
        if texts[i] == *t {
            assert(tv[i as int] == t@);
            return true;
        }
        i = i + 1;
    }
    false
}

/// Fold the field `cs[from..to]` into the scan state.
fn scan_field(
    cs: &[char],
    from: usize,
    to: usize,
    okuri: bool,
    texts: &mut Vec<String>,
    in_block: &mut bool,
)
    requires
        from <= to <= cs@.len(),
    ensures
        (final(texts)@.map_values(|s: String| s@), *final(in_block)) == scan_step(
            (old(texts)@.map_values(|s: String| s@), *old(in_block)),
            cs@.subrange(from as int, to as int),
            okuri,
        ),
{
    let ghost raw = cs@.subrange(from as int, to as int);
    let end: usize = match find_char(cs, from, to, ';') {
        Some(e) => e,
        None => to,
    };
    let ghost text = cs@.subrange(from as int, end as int);
    assert(text =~= cut_annotation(raw));
    if end == from {
        return;
    }
    if okuri {
        if cs[from] == '[' && end - from >= 2 && all_hiragana(cs, from + 1, end) {
            assert(is_block_opener(text)) by {
                assert forall|j: int| 1 <= j < text.len() implies hiragana(#[trigger] text[j]) by {
                    assert(text[j] == cs@[from + j]);
                }
            }
            *in_block = true;
            return;
        }
        assert(!is_block_opener(text)) by {
            if is_block_opener(text) {
                assert(text[0] == cs@[from as int]);
                assert forall|j: int| from + 1 <= j < end implies hiragana(#[trigger] cs@[j]) by {
                    assert(cs@[j] == text[j - from]);
                }
            }
        }
        if *in_block && end - from == 1 && cs[from] == ']' {
            assert(text == seq![']']);
            *in_block = false;
            return;
        }
        assert(!(*in_block && text == seq![']'])) by {
            if text == seq![']'] {
                assert(text[0] == cs@[from as int]);
            }
        }
    }
    let t = string_of(cs, from, end);
    if !contains_text(texts, &t) {
        texts.push(t);
        assert(texts@.map_values(|s: String| s@) =~= old(texts)@.map_values(|s: String| s@).push(
            text,
        ));
    }
}

/// Parse the line `cs[from..to]` (no `\n` inside).
#[verifier::spinoff_prover]
pub fn parse_line_in(cs: &[char], from: usize, to: usize) -> (r: Option<ParsedEntry>)
    requires
        from <= to <= cs@.len(),
    ensures
        opt_entry_view(r) == line_entry(cs@.subrange(from as int, to as int)),
{
    let ghost raw = cs@.subrange(from as int, to as int);
    let mut end: usize = to;
    if end > from && cs[end - 1] == '\r' {
        end = end - 1;
    }
    let ghost line = cs@.subrange(from as int, end as int);
    assert(line =~= strip_cr(raw));
    if end == from {
        return None;
    }
    if cs[from] == ';' {
        return None;
    }
    let p: usize = match find_char(cs, from, end, ' ') {
        Some(p) => p,
        None => {
            return None;
        },
    };
    let ghost reading = line.take(p - from);
    let ghost rest = line.skip(p - from + 1);
    assert(reading =~= cs@.subrange(from as int, p as int));
    assert(rest =~= cs@.subrange(p + 1, end as int));
    if p == from {
        return None;
    }
    if !(end - (p + 1) >= 2 && cs[p + 1] == '/' && cs[end - 1] == '/') {
        proof {
            if rest.len() >= 2 {
                assert(rest[0] == cs@[p + 1]);
                assert(rest.last() == cs@[end - 1]);
            }
        }
        return None;
    }
    assert(rest[0] == cs@[p + 1]);
    assert(rest.last() == cs@[end - 1]);
    let a: usize = p + 2;
    let b: usize = end - 1;
    let ghost inner = rest.subrange(1, rest.len() - 1);
    assert(inner =~= cs@.subrange(a as int, b as int));
    if a == b {
        return None;
    }
    let okuri = trailing_okuri_in(cs, from, p).is_some();
    let mut texts: Vec<String> = Vec::new();
    let mut in_block = false;
    let mut start: usize = a;
    let mut i: usize = a;
    let ghost mut done: Seq<Seq<char>> = Seq::empty();
    proof {
        assert(inner.take(0) =~= Seq::<char>::empty());
        assert(cs@.subrange(a as int, a as int) =~= Seq::<char>::empty());
    }
    while i < b
        invariant
            a <= start <= i <= b < cs@.len(),
            inner == cs@.subrange(a as int, b as int),
            split_on(inner.take(i - a), '/') == done.push(cs@.subrange(start as int, i as int)),
            (texts@.map_values(|s: String| s@), in_block) == scan_fields(done, okuri),
        decreases b - i,
    {
        let ghost pre = inner.take(i - a);
        assert(inner.take(i - a + 1).drop_last() =~= pre);
        assert(inner.take(i - a + 1).last() == cs@[i as int]);
        if cs[i] == '/' {
            let ghost piece = cs@.subrange(start as int, i as int);
            scan_field(cs, start, i, okuri, &mut texts, &mut in_block);
            proof {
                assert(done.push(piece).drop_last() =~= done);
                done = done.push(piece);
                assert(cs@.subrange((i + 1) as int, (i + 1) as int) =~= Seq::<char>::empty());
            }
            start = i + 1;
        } else {
            proof {
                assert(cs@.subrange(start as int, i + 1) =~= cs@.subrange(
                    start as int,
                    i as int,
                ).push(cs@[i as int]));
                assert(done.push(cs@.subrange(start as int, i as int)).update(
                    done.len() as int,
                    cs@.subrange(start as int, i + 1),
                ) =~= done.push(cs@.subrange(start as int, i + 1)));
            }
        }
        i = i + 1;
    }
    assert(inner.take(b - a) =~= inner);
    let ghost last_piece = cs@.subrange(start as int, b as int);
    scan_field(cs, start, b, okuri, &mut texts, &mut in_block);
    proof {
        assert(done.push(last_piece).drop_last() =~= done);
        assert(scan_fields(split_on(inner, '/'), okuri) == scan_fields(done.push(last_piece), okuri));
    }
    if texts.len() == 0 {
        return None;
    }
    let reading_s = string_of(cs, from, p);
    let e = ParsedEntry::with_okuri(reading_s, texts, okuri);
    assert(e@.candidates == texts@.map_values(|s: String| s@));
    Some(e)
}

pub fn parse_line(raw: &str) -> (r: Option<ParsedEntry>)
    ensures
        opt_entry_view(r) == line_entry(raw@),
{
    let cs = chars_of(raw);
    assert(cs@.subrange(0, cs@.len() as int) =~= raw@);
    parse_line_in(&cs, 0, cs.len())
}

pub fn parse(source: &str) -> (r: Vec<ParsedEntry>)
    ensures
        r@.map_values(|e: ParsedEntry| e@) == source_entries(source@),
{
    let cs = chars_of(source);
    let n: usize = cs.len();
    let mut result: Vec<ParsedEntry> = Vec::new();
    let mut start: usize = 0;
    let mut i: usize = 0;
    let ghost mut done: Seq<Seq<char>> = Seq::empty();
    proof {
        assert(cs@.take(0) =~= Seq::<char>::empty());
        assert(cs@.subrange(0, 0) =~= Seq::<char>::empty());
    }
    while i < n
        invariant
            0 <= start <= i <= n == cs@.len(),
            cs@ == source@,
            split_on(cs@.take(i as int), '\n') == done.push(cs@.subrange(start as int, i as int)),
            result@.map_values(|e: ParsedEntry| e@) == entries_of_lines(
                done.map_values(|l: Seq<char>| strip_cr(l)),
            ),
        decreases n - i,
    {
        assert(cs@.take(i + 1).drop_last() =~= cs@.take(i as int));
        assert(cs@.take(i + 1).last() == cs@[i as int]);
        if cs[i] == '\n' {
            let ghost piece = cs@.subrange(start as int, i as int);
            let ghost old_result = result@.map_values(|e: ParsedEntry| e@);
            let mut end: usize = i;
            if end > start && cs[end - 1] == '\r' {
                end = end - 1;
            }
            assert(cs@.subrange(start as int, end as int) =~= strip_cr(piece));
            let entry = parse_line_in(&cs, start, end);
            proof {
                let ls = done.map_values(|l: Seq<char>| strip_cr(l));
                let ls2 = done.push(piece).map_values(|l: Seq<char>| strip_cr(l));
                assert(ls2.drop_last() =~= ls);
                assert(ls2.last() == strip_cr(piece));
            }
            match entry {
                Some(e) => {
                    result.push(e);
                    assert(result@.map_values(|e: ParsedEntry| e@) =~= old_result.push(e@));
                },
                None => {},
            }
            proof {
                assert(done.push(piece).drop_last() =~= done);
                done = done.push(piece);
                assert(cs@.subrange((i + 1) as int, (i + 1) as int) =~= Seq::<char>::empty());
            }
            start = i + 1;
        } else {
            proof {
                assert(cs@.subrange(start as int, i + 1) =~= cs@.subrange(
                    start as int,
                    i as int,
                ).push(cs@[i as int]));
                assert(done.push(cs@.subrange(start as int, i as int)).update(
                    done.len() as int,
                    cs@.subrange(start as int, i + 1),
                ) =~= done.push(cs@.subrange(start as int, i + 1)));
            }
        }
        i = i + 1;
    }
    assert(cs@.take(n as int) =~= cs@);
    let ghost ps = split_on(cs@, '\n');
    let ghost lines = lines_of(cs@);
    let ghost strip_done = done.map_values(|l: Seq<char>| strip_cr(l));
    if start < n {
        let ghost last_piece = cs@.subrange(start as int, n as int);
        assert(lines =~= strip_done.push(last_piece));
        assert(lines.drop_last() =~= strip_done);
        let ghost old_result = result@.map_values(|e: ParsedEntry| e@);
        let entry = parse_line_in(&cs, start, n);
        match entry {
            Some(e) => {
                result.push(e);
                assert(result@.map_values(|e: ParsedEntry| e@) =~= old_result.push(e@));
            },
            None => {},
        }
    } else {
        assert(ps.drop_last() =~= done);
        assert(lines =~= strip_done);
    }
    result
}

// ---------------------------------------------------------------------------
// Laws
// ---------------------------------------------------------------------------

/// A candidate text as the dictionary holds it: non-empty, with neither the
/// field separator nor the annotation marker.
pub open spec fn candidate_text_ok(t: Seq<char>) -> bool {
    t.len() > 0 && !t.contains('/') && !t.contains(';')
}

/// The shape every parsed entry has.
pub open spec fn entry_well_formed(e: EntryModel) -> bool {
    &&& e.reading.len() > 0
    &&& !e.reading.contains(' ')
    &&& e.is_okuri_ari == (okuri_of(e.reading) is Some)
    &&& e.candidates.len() > 0
    &&& e.candidates.no_duplicates()
    &&& forall|i: int| 0 <= i < e.candidates.len() ==> candidate_text_ok(#[trigger] e.candidates[i])
}

proof fn lemma_first_index_props(s: Seq<char>, c: char)
    ensures
        match first_index(s, c) {
            Some(i) => 0 <= i < s.len() && s[i] == c && forall|j: int| 0 <= j < i ==> s[j] != c,
            None => forall|j: int| 0 <= j < s.len() ==> s[j] != c,
        },
    decreases s.len(),
{
    if s.len() > 0 {
        lemma_first_index_props(s.drop_last(), c);
        match first_index(s.drop_last(), c) {
            Some(i) => {
                assert forall|j: int| 0 <= j < i implies s[j] != c by {
                    assert(s[j] == s.drop_last()[j]);
                }
            },
            None => {
                assert forall|j: int| 0 <= j < s.len() - 1 implies s[j] != c by {
                    assert(s[j] == s.drop_last()[j]);
                }
            },
        }
    }
}

proof fn lemma_split_pieces_lack_sep(s: Seq<char>, sep: char)
    ensures
        forall|i: int, j: int|
            0 <= i < split_on(s, sep).len() && 0 <= j < split_on(s, sep)[i].len() ==> #[trigger] split_on(
                s,
                sep,
            )[i][j] != sep,
    decreases s.len(),
{
    if s.len() > 0 {
        lemma_split_pieces_lack_sep(s.drop_last(), sep);
        lemma_split_nonempty(s.drop_last(), sep);
        let prev = split_on(s.drop_last(), sep);
        let cur = split_on(s, sep);
        assert forall|i: int, j: int| 0 <= i < cur.len() && 0 <= j < cur[i].len() implies #[trigger] cur[i][j]
            != sep by {
            if s.last() == sep {
                if i < prev.len() {
                    assert(cur[i] == prev[i]);
                }
            } else if i < prev.len() - 1 {
                assert(cur[i] == prev[i]);
            } else {
                assert(cur[i] == prev.last().push(s.last()));
                if j < prev.last().len() {
                    assert(cur[i][j] == prev[prev.len() - 1][j]);
                }
            }
        }
    }
}

proof fn lemma_cut_annotation_ok(x: Seq<char>)
    requires
        !x.contains('/'),
    ensures
        !cut_annotation(x).contains('/'),
        !cut_annotation(x).contains(';'),
{
    lemma_first_index_props(x, ';');
    let t = cut_annotation(x);
    assert forall|k: int| 0 <= k < t.len() implies t[k] != '/' && t[k] != ';' by {
        assert(t[k] == x[k]);
    }
}

proof fn lemma_scan_fields_ok(fields: Seq<Seq<char>>, okuri: bool)
    requires
        forall|i: int| 0 <= i < fields.len() ==> !(#[trigger] fields[i]).contains('/'),
    ensures
        scan_fields(fields, okuri).0.no_duplicates(),
        forall|i: int|
            0 <= i < scan_fields(fields, okuri).0.len() ==> candidate_text_ok(
                #[trigger] scan_fields(fields, okuri).0[i],
            ),
    decreases fields.len(),
{
    if fields.len() > 0 {
        assert forall|i: int| 0 <= i < fields.drop_last().len() implies !(
        #[trigger] fields.drop_last()[i]).contains('/') by {
            assert(fields.drop_last()[i] == fields[i]);
        }
        lemma_scan_fields_ok(fields.drop_last(), okuri);
        let st = scan_fields(fields.drop_last(), okuri);
        let text = cut_annotation(fields.last());
        lemma_cut_annotation_ok(fields.last());
        let out = scan_fields(fields, okuri).0;
        if out != st.0 {
            assert(out == st.0.push(text));
            assert(!st.0.contains(text));
            assert forall|i: int, j: int| 0 <= i < j < out.len() implies out[i] != out[j] by {
                if j == st.0.len() {
                    assert(st.0[i] != text);
                }
            }
            assert forall|i: int| 0 <= i < out.len() implies candidate_text_ok(#[trigger] out[i]) by {
                if i < st.0.len() {
                    assert(out[i] == st.0[i]);
                }
            }
        }
    }
}

/// Every entry a line parses to has a non-empty reading without spaces, the
/// okuri-ari flag exactly when the reading ends in `<hiragana><a-z>`, and at
/// least one candidate; its candidates are distinct, non-empty, and hold no
/// `/` and no annotation.
pub proof fn law_line_entry_shape(raw: Seq<char>)
    ensures
        line_entry(raw) matches Some(e) ==> entry_well_formed(e),
{
    let line = strip_cr(raw);
    if let Some(e) = line_entry(raw) {
        lemma_first_index_props(line, ' ');
        let p = first_index(line, ' ')->0;
        let reading = line.take(p);
        assert forall|k: int| 0 <= k < reading.len() implies reading[k] != ' ' by {
            assert(reading[k] == line[k]);
        }
        let rest = line.skip(p + 1);
        let inner = rest.subrange(1, rest.len() - 1);
        lemma_split_pieces_lack_sep(inner, '/');
        let fields = split_on(inner, '/');
        assert forall|i: int| 0 <= i < fields.len() implies !(#[trigger] fields[i]).contains('/') by {
            assert forall|j: int| 0 <= j < fields[i].len() implies fields[i][j] != '/' by {
                assert(split_on(inner, '/')[i][j] != '/');
            }
        }
        lemma_scan_fields_ok(fields, okuri_of(reading) is Some);
    }
}

/// Every entry parsed from a dictionary text has the shape of
/// `law_line_entry_shape`.
pub proof fn law_source_entries_shape(s: Seq<char>)
    ensures
        forall|i: int| 0 <= i < source_entries(s).len() ==> entry_well_formed(#[trigger] source_entries(s)[i]),
{
    lemma_entries_of_lines_shape(lines_of(s));
}

proof fn lemma_entries_of_lines_shape(ls: Seq<Seq<char>>)
    ensures
        forall|i: int|
            0 <= i < entries_of_lines(ls).len() ==> entry_well_formed(#[trigger] entries_of_lines(ls)[i]),
    decreases ls.len(),
{
    if ls.len() > 0 {
        lemma_entries_of_lines_shape(ls.drop_last());
        law_line_entry_shape(ls.last());
        let prev = entries_of_lines(ls.drop_last());
        if let Some(e) = line_entry(ls.last()) {
            assert forall|i: int| 0 <= i < prev.push(e).len() implies entry_well_formed(
                #[trigger] prev.push(e)[i],
            ) by {
                if i < prev.len() {
                    assert(prev.push(e)[i] == prev[i]);
                }
            }
        }
    }
}

} // verus!
