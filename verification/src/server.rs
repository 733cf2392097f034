//! The skkserv protocol: request framing, yomi normalisation, opcode
//! dispatch and the candidate reply line.

use vstd::prelude::*;
use vstd::slice::slice_subrange;
use crate::codec::{decodable_len, decode_euc_jp_strict, decode_utf8_strict, euc_jp_text, opt_text, utf8_text};
use crate::generator::{CompoundGeneratorConfig, generate, generated, okuri_letter, strings_view};
use crate::snapshot::DictionarySnapshot;
use crate::store::DictionaryStore;
use crate::parser::{okuri_of, trailing_okuri_in};
use crate::text::{chars_of, string_of};

verus! {

// ---------------------------------------------------------------------------
// Incoming character sets
// ---------------------------------------------------------------------------

#[derive(Debug, Clone, Copy, PartialEq, Eq, Structural)]
pub enum IncomingCharset {
    Utf8,
    EucJp,
}

pub open spec fn charset_name(c: IncomingCharset) -> Seq<char> {
    match c {
        IncomingCharset::Utf8 => seq!['U', 'T', 'F', '-', '8'],
        IncomingCharset::EucJp => seq!['E', 'U', 'C', '-', 'J', 'P'],
    }
}

/// The text `bytes` stand for in charset `c`, or `None` when they are not
/// well-formed in it.
pub open spec fn decoded_as(c: IncomingCharset, bytes: Seq<u8>) -> Option<Seq<char>> {
    match c {
        IncomingCharset::Utf8 => utf8_text(bytes),
        IncomingCharset::EucJp => euc_jp_text(bytes),
    }
}

/// Inputs of `n` bytes can be decoded in charset `c` without exhausting the
/// decoder's size arithmetic.
pub open spec fn decodable_in(c: IncomingCharset, n: nat) -> bool {
    c == IncomingCharset::EucJp ==> decodable_len(n)
}

impl IncomingCharset {
    pub fn name(&self) -> (r: &'static str)
        ensures
            r@ == charset_name(*self),
    {
        match self {
            IncomingCharset::Utf8 => {
                proof {
                    reveal_strlit("UTF-8");
                }
                "UTF-8"
            },
            IncomingCharset::EucJp => {
                proof {
                    reveal_strlit("EUC-JP");
                }
                "EUC-JP"
            },
        }
    }

    /// Strict decoding: `None` when the bytes are not well-formed in this
    /// charset.
    pub fn decode(&self, bytes: &[u8]) -> (r: Option<String>)
        requires
            decodable_in(*self, bytes@.len()),
        ensures
            opt_text(r) == decoded_as(*self, bytes@),
    {
        match self {
            IncomingCharset::Utf8 => decode_utf8_strict(bytes),
            IncomingCharset::EucJp => decode_euc_jp_strict(bytes),
        }
    }
}

// ---------------------------------------------------------------------------
// Yomi normalisation
// ---------------------------------------------------------------------------

/// Unicode `White_Space`, the class `str::trim` removes.
pub open spec fn white(c: char) -> bool {
    let u = c as u32;
    ||| 0x9 <= u <= 0xd
    ||| u == 0x20
    ||| u == 0x85
    ||| u == 0xa0
    ||| u == 0x1680
    ||| 0x2000 <= u <= 0x200a
    ||| u == 0x2028
    ||| u == 0x2029
    ||| u == 0x202f
    ||| u == 0x205f
    ||| u == 0x3000
}

pub open spec fn trim_start(s: Seq<char>) -> Seq<char>
    decreases s.len(),
{
    if s.len() > 0 && white(s[0]) {
        trim_start(s.drop_first())
    } else {
        s
    }
}

pub open spec fn trim_end(s: Seq<char>) -> Seq<char>
    decreases s.len(),
{
    if s.len() > 0 && white(s.last()) {
        trim_end(s.drop_last())
    } else {
        s
    }
}

/// `s` without leading and trailing white space.
pub open spec fn trimmed(s: Seq<char>) -> Seq<char> {
    trim_end(trim_start(s))
}

pub open spec fn all_ascii(s: Seq<char>) -> bool {
    forall|k: int| 0 <= k < s.len() ==> (#[trigger] s[k] as u32) < 0x80
}

/// A raw yomi as the generator sees it: trimmed; when it is not plain ASCII
/// and ends in `<hiragana><a-z>`, the letter is lifted out as the okurigana
/// marker.
pub open spec fn sanitized(s: Seq<char>) -> (Seq<char>, Option<char>) {
    let t = trimmed(s);
    if t.len() == 0 || all_ascii(t) {
        (t, None)
    } else {
        match okuri_of(t) {
            Some(c) => (t.drop_last(), Some(c)),
            None => (t, None),
        }
    }
}

pub open spec fn letter_text(o: Option<char>) -> Option<Seq<char>> {
    match o {
        Some(c) => Some(seq![c]),
        None => None,
    }
}

pub fn is_white(c: char) -> (b: bool)
    ensures
        b == white(c),
{
    let u: u32 = c as u32;
    (0x9 <= u && u <= 0xd) || u == 0x20 || u == 0x85 || u == 0xa0 || u == 0x1680 || (0x2000 <= u
        && u <= 0x200a) || u == 0x2028 || u == 0x2029 || u == 0x202f || u == 0x205f || u == 0x3000
}

proof fn lemma_trim_start_skip(s: Seq<char>, i: int)
    requires
        0 <= i <= s.len(),
        forall|k: int| 0 <= k < i ==> white(#[trigger] s[k]),
    ensures
        trim_start(s) == trim_start(s.subrange(i, s.len() as int)),
    decreases i,
{
    if i == 0 {
        assert(s.subrange(0, s.len() as int) =~= s);
    } else {
        assert(white(s[0]));
        let t = s.drop_first();
        assert forall|k: int| 0 <= k < i - 1 implies white(#[trigger] t[k]) by {
            assert(t[k] == s[k + 1]);
        }
        lemma_trim_start_skip(t, i - 1);
        assert(t.subrange(i - 1, t.len() as int) =~= s.subrange(i, s.len() as int));
    }
}

proof fn lemma_trim_end_skip(s: Seq<char>, j: int)
    requires
        0 <= j <= s.len(),
        forall|k: int| j <= k < s.len() ==> white(#[trigger] s[k]),
    ensures
        trim_end(s) == trim_end(s.subrange(0, j)),
    decreases s.len() - j,
{
    if j == s.len() {
        assert(s.subrange(0, j) =~= s);
    } else {
        assert(white(s.last()));
        let t = s.drop_last();
        assert forall|k: int| j <= k < t.len() implies white(#[trigger] t[k]) by {
            assert(t[k] == s[k]);
        }
        lemma_trim_end_skip(t, j);
        assert(t.subrange(0, j) =~= s.subrange(0, j));
    }
}

/// The trimmed text is `s[i..j]` for the first and last non-white positions.
proof fn lemma_trimmed_range(s: Seq<char>, i: int, j: int)
    requires
        0 <= i <= j <= s.len(),
        forall|k: int| 0 <= k < i ==> white(#[trigger] s[k]),
        forall|k: int| j <= k < s.len() ==> white(#[trigger] s[k]),
        i == s.len() || !white(s[i]),
        j == i || !white(s[j - 1]),
    ensures
        trimmed(s) == s.subrange(i, j),
{
    lemma_trim_start_skip(s, i);
    let t = s.subrange(i, s.len() as int);
    assert(trim_start(t) == t);
    assert forall|k: int| j - i <= k < t.len() implies white(#[trigger] t[k]) by {
        assert(t[k] == s[k + i]);
    }
    lemma_trim_end_skip(t, j - i);
    let u = t.subrange(0, j - i);
    assert(u =~= s.subrange(i, j));
    assert(trim_end(u) == u);
}

/// Normalize a raw skkserv yomi into a `(body, okuri_prefix)` pair. Trims
/// whitespace, lifts a trailing `<hiragana><a-z>` letter into `okuri_prefix`,
/// and passes all-ASCII (abbrev) inputs through verbatim.
pub fn sanitize_yomi(yomi: &str) -> (r: (String, Option<String>))
    ensures
        r.0@ == sanitized(yomi@).0,
        opt_text(r.1) == letter_text(sanitized(yomi@).1),
{
    let cs = chars_of(yomi);
    let n: usize = cs.len();
    let mut i: usize = 0;
    while i < n && is_white(cs[i])
        invariant
            i <= n == cs@.len(),
            forall|k: int| 0 <= k < i ==> white(#[trigger] cs@[k]),
        decreases n - i,
    {
        i = i + 1;
    }
    let mut j: usize = n;
    while j > i && is_white(cs[j - 1])
        invariant
            i <= j <= n == cs@.len(),
            forall|k: int| j <= k < n ==> white(#[trigger] cs@[k]),
        decreases j,
    {
        j = j - 1;
    }
    proof {
        lemma_trimmed_range(cs@, i as int, j as int);
    }
    let ghost t = cs@.subrange(i as int, j as int);
    if i == j {
        return (String::new(), None);
    }
    let mut ascii = true;
    let mut k: usize = i;
    while k < j
        invariant
            i <= k <= j <= n == cs@.len(),
            t == cs@.subrange(i as int, j as int),
            ascii == (forall|m: int| i <= m < k ==> (#[trigger] cs@[m] as u32) < 0x80),
        decreases j - k,
    {
        if (cs[k] as u32) >= 0x80 {
            ascii = false;
        }
        k = k + 1;
    }
    proof {
        if ascii {
            assert forall|m: int| 0 <= m < t.len() implies (#[trigger] t[m] as u32) < 0x80 by {
                assert(t[m] == cs@[m + i]);
            }
        } else {
            let m = choose|m: int| i <= m < j && !((#[trigger] cs@[m] as u32) < 0x80);
            assert(t[m - i] == cs@[m]);
        }
    }
    if ascii {
        return (string_of(&cs, i, j), None);
    }
    match trailing_okuri_in(&cs, i, j) {
        Some(letter) => {
            let body = string_of(&cs, i, j - 1);
            assert(body@ =~= t.drop_last());
            let mut marker = String::new();
            marker.push(letter);
            (body, Some(marker))
        },
        None => (string_of(&cs, i, j), None),
    }
}


// ---------------------------------------------------------------------------
// The reply line
// ---------------------------------------------------------------------------

/// Characters that would break the skkserv framing: `/` separates
/// candidates, `\n` ends the reply, `\r` and NUL upset line-oriented clients.
pub open spec fn wire_safe(c: char) -> bool {
    c != '/' && c != '\n' && c != '\r' && c != '\0'
}

/// `t` with every framing character dropped.
pub open spec fn for_wire(t: Seq<char>) -> Seq<char>
    decreases t.len(),
{
    if t.len() == 0 {
        t
    } else {
        let p = for_wire(t.drop_last());
        if wire_safe(t.last()) {
            p.push(t.last())
        } else {
            p
        }
    }
}

/// The candidates made wire-safe, those left empty dropped.
pub open spec fn wire_texts(cands: Seq<Seq<char>>) -> Seq<Seq<char>>
    decreases cands.len(),
{
    if cands.len() == 0 {
        Seq::empty()
    } else {
        let p = wire_texts(cands.drop_last());
        let w = for_wire(cands.last());
        if w.len() > 0 {
            p.push(w)
        } else {
            p
        }
    }
}

/// `/x1/x2.../xn`.
pub open spec fn slashed(xs: Seq<Seq<char>>) -> Seq<char>
    decreases xs.len(),
{
    if xs.len() == 0 {
        Seq::empty()
    } else {
        slashed(xs.drop_last()) + seq!['/'] + xs.last()
    }
}

/// The reply to a request with no candidate: `4\n`.
pub open spec fn miss_reply() -> Seq<char> {
    seq!['4', '\n']
}

/// The reply carrying `cands`: `1/c1/c2/.../\n`, or the miss reply when no
/// candidate survives the wire filter.
pub open spec fn reply_of(cands: Seq<Seq<char>>) -> Seq<char> {
    let ws = wire_texts(cands);
    if ws.len() == 0 {
        miss_reply()
    } else {
        seq!['1'] + slashed(ws) + seq!['/', '\n']
    }
}

/// `text` with the characters that would corrupt the reply framing dropped.
pub fn sanitize_candidate_for_wire(text: &str) -> (r: String)
    ensures
        r@ == for_wire(text@),
{
    let cs = chars_of(text);
    let mut out = String::new();
    let mut k: usize = 0;
    while k < cs.len()
        invariant
            k <= cs@.len(),
            cs@ == text@,
            out@ == for_wire(cs@.take(k as int)),
        decreases cs@.len() - k,
    {
        let c = cs[k];
        assert(cs@.take(k + 1).drop_last() =~= cs@.take(k as int));
        if c != '/' && c != '\n' && c != '\r' && c != '\0' {
            out.push(c);
        }
        k = k + 1;
    }
    assert(cs@.take(cs@.len() as int) =~= cs@);
    out
}

fn push_all(out: &mut String, t: &str)
    ensures
        final(out)@ == old(out)@ + t@,
{
    let cs = chars_of(t);
    let mut k: usize = 0;
    while k < cs.len()
        invariant
            k <= cs@.len(),
            cs@ == t@,
            out@ == old(out)@ + cs@.take(k as int),
        decreases cs@.len() - k,
    {
        out.push(cs[k]);
        assert(cs@.take(k + 1) =~= cs@.take(k as int).push(cs@[k as int]));
        k = k + 1;
    }
    assert(cs@.take(cs@.len() as int) =~= cs@);
}

fn miss_line() -> (r: String)
    ensures
        r@ == miss_reply(),
{
    let mut r = String::new();
    r.push('4');
    r.push('\n');
    r
}

/// The reply line for `candidates`, in order.
pub fn reply_line(candidates: &Vec<String>) -> (r: String)
    ensures
        r@ == reply_of(strings_view(candidates@)),
{
    let ghost cands = strings_view(candidates@);
    let mut out = String::new();
    out.push('1');
    let mut any = false;
    let mut k: usize = 0;
    while k < candidates.len()
        invariant
            k <= candidates@.len(),
            cands == strings_view(candidates@),
            out@ == seq!['1'] + slashed(wire_texts(cands.take(k as int))),
            any == (wire_texts(cands.take(k as int)).len() > 0),
        decreases candidates@.len() - k,
    {
        let w = sanitize_candidate_for_wire(candidates[k].as_str());
        assert(cands.take(k + 1).drop_last() =~= cands.take(k as int));
        assert(cands.take(k + 1).last() == candidates@[k as int]@);
        if !w.as_str().is_empty() {
            let ghost p = wire_texts(cands.take(k as int));
            out.push('/');
            push_all(&mut out, w.as_str());
            proof {
                assert(wire_texts(cands.take(k + 1)) == p.push(w@));
                assert(p.push(w@).drop_last() =~= p);
                assert(slashed(p.push(w@)) == slashed(p) + seq!['/'] + w@);
                assert(out@ =~= seq!['1'] + slashed(wire_texts(cands.take(k + 1))));
            }
            any = true;
        }
        k = k + 1;
    }
    assert(cands.take(cands.len() as int) =~= cands);
    if !any {
        return miss_line();
    }
    out.push('/');
    out.push('\n');
    assert(out@ =~= seq!['1'] + slashed(wire_texts(cands)) + seq!['/', '\n']);
    out
}

// ---------------------------------------------------------------------------
// Request framing
// ---------------------------------------------------------------------------

/// Requests end at a space or a line feed.
pub open spec fn is_delim(b: u8) -> bool {
    b == 0x20 || b == 0x0a
}

/// The request one delimited payload stands for: the first character of its
/// text is the opcode, the rest the operand. Empty payloads, payloads that
/// do not decode and payloads that decode to nothing stand for none.
pub open spec fn request_of(payload: Seq<u8>, cs: IncomingCharset) -> Option<(char, Seq<char>)> {
    if payload.len() == 0 {
        None
    } else {
        match decoded_as(cs, payload) {
            Some(t) => if t.len() > 0 {
                Some((t[0], t.drop_first()))
            } else {
                None
            },
            None => None,
        }
    }
}

/// Reading `b` from the start: the requests completed so far, and the bytes
/// of the request still open.
pub open spec fn framed(b: Seq<u8>, cs: IncomingCharset) -> (Seq<(char, Seq<char>)>, Seq<u8>)
    decreases b.len(),
{
    if b.len() == 0 {
        (Seq::empty(), Seq::empty())
    } else {
        let prev = framed(b.drop_last(), cs);
        if is_delim(b.last()) {
            match request_of(prev.1, cs) {
                Some(q) => (prev.0.push(q), Seq::empty()),
                None => (prev.0, Seq::empty()),
            }
        } else {
            (prev.0, prev.1.push(b.last()))
        }
    }
}

/// The complete requests in `b`, in order.
pub open spec fn requests_in(b: Seq<u8>, cs: IncomingCharset) -> Seq<(char, Seq<char>)> {
    framed(b, cs).0
}

/// The bytes after the last delimiter of `b`.
pub open spec fn pending_in(b: Seq<u8>, cs: IncomingCharset) -> Seq<u8> {
    framed(b, cs).1
}

pub open spec fn requests_view(v: Seq<(char, String)>) -> Seq<(char, Seq<char>)> {
    v.map_values(|q: (char, String)| (q.0, q.1@))
}

/// Slice `buffer` into individual skkserv requests at space (0x20) or LF
/// (0x0A) boundaries. Unterminated trailing bytes are left in `buffer` for
/// the next read.
pub fn extract_messages(buffer: &mut Vec<u8>, charset: IncomingCharset) -> (r: Vec<(char, String)>)
    requires
        decodable_in(charset, old(buffer)@.len()),
    ensures
        requests_view(r@) == requests_in(old(buffer)@, charset),
        final(buffer)@ == pending_in(old(buffer)@, charset),
{
    let ghost b = buffer@;
    let n: usize = buffer.len();
    let mut results: Vec<(char, String)> = Vec::new();
    let mut start: usize = 0;
    let mut k: usize = 0;
    assert(b.take(0) =~= Seq::<u8>::empty());
    assert(requests_view(results@) =~= Seq::<(char, Seq<char>)>::empty());
    while k < n
        invariant
            start <= k <= n == b.len(),
            buffer@ == b,
            decodable_in(charset, b.len()),
            framed(b.take(k as int), charset).0 == requests_view(results@),
            framed(b.take(k as int), charset).1 == b.subrange(start as int, k as int),
        decreases n - k,
    {
        let byte = buffer[k];
        assert(b.take(k + 1).drop_last() =~= b.take(k as int));
        assert(b.take(k + 1).last() == byte);
        if byte == 0x20 || byte == 0x0a {
            let payload = slice_subrange(buffer.as_slice(), start, k);
            if start < k {
                match charset.decode(payload) {
                    Some(text) => {
                        let tcs = chars_of(text.as_str());
                        if tcs.len() > 0 {
                            let operand = string_of(&tcs, 1, tcs.len());
                            let ghost before = results@;
                            results.push((tcs[0], operand));
                            proof {
                                assert(tcs@.subrange(1, tcs@.len() as int) =~= tcs@.drop_first());
                                assert(requests_view(results@) =~= requests_view(before).push(
                                    (tcs@[0], tcs@.drop_first()),
                                ));
                            }
                        }
                    },
                    None => {},
                }
            }
            start = k + 1;
            assert(b.subrange(start as int, k + 1) =~= Seq::<u8>::empty());
        } else {
            assert(b.subrange(start as int, k + 1) =~= b.subrange(start as int, k as int).push(byte));
        }
        k = k + 1;
    }
    assert(b.take(n as int) =~= b);
    let tail = buffer.split_off(start);
    *buffer = tail;
    results
}

// ---------------------------------------------------------------------------
// Opcode dispatch
// ---------------------------------------------------------------------------

#[derive(Debug, PartialEq, Eq)]
pub enum OpcodeResult {
    Close,
    Ignore,
    Reply(String),
}

/// The reply text of `r`, if it is a reply.
pub open spec fn reply_text(r: OpcodeResult) -> Option<Seq<char>> {
    match r {
        OpcodeResult::Reply(s) => Some(s@),
        _ => None,
    }
}

pub open spec fn decimal_digits() -> Seq<char> {
    seq!['0', '1', '2', '3', '4', '5', '6', '7', '8', '9']
}

/// The decimal numeral of `n`.
pub open spec fn decimal(n: nat) -> Seq<char>
    decreases n,
{
    if n < 10 {
        seq![decimal_digits()[n as int]]
    } else {
        decimal(n / 10).push(decimal_digits()[(n % 10) as int])
    }
}

/// The host label of the opcode-3 reply.
pub open spec fn local_host() -> Seq<char> {
    seq!['l', 'o', 'c', 'a', 'l', 'h', 'o', 's', 't']
}

/// The opcode-3 reply: `<host label>/<address>:<port> `.
pub open spec fn host_reply(address: Seq<char>, port: u16) -> Seq<char> {
    local_host() + seq!['/'] + address + seq![':'] + decimal(port as nat) + seq![' ']
}

/// The opcode-2 reply: `<server name>/<version> `.
pub open spec fn version_reply(server_name: Seq<char>, version: Seq<char>) -> Seq<char> {
    server_name + seq!['/'] + version + seq![' ']
}

/// The opcode-1 reply to `raw` against `snap`.
pub open spec fn response_text(snap: &DictionarySnapshot, cap: nat, raw: Seq<char>) -> Seq<char> {
    let (body, okuri) = sanitized(raw);
    if body.len() == 0 {
        miss_reply()
    } else {
        reply_of(generated(snap, body, cap, okuri))
    }
}

fn digit(d: u16) -> (c: char)
    requires
        d < 10,
    ensures
        c == decimal_digits()[d as int],
{
    if d == 0 {
        '0'
    } else if d == 1 {
        '1'
    } else if d == 2 {
        '2'
    } else if d == 3 {
        '3'
    } else if d == 4 {
        '4'
    } else if d == 5 {
        '5'
    } else if d == 6 {
        '6'
    } else if d == 7 {
        '7'
    } else if d == 8 {
        '8'
    } else {
        '9'
    }
}

fn decimal_string(n: u16) -> (r: String)
    ensures
        r@ == decimal(n as nat),
    decreases n,
{
    if n < 10 {
        let mut s = String::new();
        s.push(digit(n));
        s
    } else {
        let mut s = decimal_string(n / 10);
        s.push(digit(n % 10));
        s
    }
}

/// skkserv-compound is a loopback-only personal backend; the hostname in the
/// opcode-3 reply is informational only, so a fixed label is enough.
fn local_host_name() -> (r: String)
    ensures
        r@ == local_host(),
{
    let label = "localhost";
    proof {
        reveal_strlit("localhost");
    }
    label.to_owned()
}

/// The reply to a candidate request for `raw_yomi` against `snapshot`.
pub fn response_for(snapshot: &DictionarySnapshot, config: CompoundGeneratorConfig, raw_yomi: &str) -> (r: String)
    ensures
        r@ == response_text(snapshot, config.max_final_candidates as nat, raw_yomi@),
{
    let (body, okuri) = sanitize_yomi(raw_yomi);
    if body.as_str().is_empty() {
        return miss_line();
    }
    let marker: Option<&str> = match &okuri {
        Some(m) => Some(m.as_str()),
        None => None,
    };
    assert(okuri_letter(marker) == sanitized(raw_yomi@).1);
    let candidates = generate(body.as_str(), snapshot, config, marker);
    reply_line(&candidates)
}

#[derive(Clone)]
pub struct SkkServer {
    pub version: String,
    pub server_name: String,
    pub store: DictionaryStore,
    pub generator_config: CompoundGeneratorConfig,
}

impl SkkServer {
    pub fn new(
        version: &str,
        server_name: &str,
        store: DictionaryStore,
        generator_config: CompoundGeneratorConfig,
    ) -> (s: Self)
        ensures
            s.version@ == version@,
            s.server_name@ == server_name@,
            s.store == store,
            s.generator_config == generator_config,
    {
        SkkServer {
            version: version.to_owned(),
            server_name: server_name.to_owned(),
            store,
            generator_config,
        }
    }

    /// The reply to opcode 1 for `raw_yomi`, against the snapshot the store
    /// holds when the request is served.
    pub fn candidate_response(&self, raw_yomi: &str) -> (r: String)
        ensures
            exists|snap: DictionarySnapshot|
                #[trigger] response_text(&snap, self.generator_config.max_final_candidates as nat, raw_yomi@)
                    == r@,
            sanitized(raw_yomi@).0.len() == 0 ==> r@ == miss_reply(),
    {
        let snapshot = self.store.current();
        let r = response_for(&snapshot, self.generator_config, raw_yomi);
        assert(response_text(&*snapshot, self.generator_config.max_final_candidates as nat, raw_yomi@)
            == r@);
        r
    }

    /// Dispatch one request. `address` and `port` are where this server
    /// listens; opcode 3 reports them.
    pub fn handle_opcode(&self, opcode: char, operand: &str, address: &str, port: u16) -> (r: OpcodeResult)
        ensures
            opcode == '0' ==> r == OpcodeResult::Close,
            opcode == '1' ==> exists|snap: DictionarySnapshot|
                Some(#[trigger] response_text(&snap, self.generator_config.max_final_candidates as nat, operand@))
                    == reply_text(r),
            opcode == '2' ==> reply_text(r) == Some(version_reply(self.server_name@, self.version@)),
            opcode == '3' ==> reply_text(r) == Some(host_reply(address@, port)),
            opcode == '4' ==> reply_text(r) == Some(miss_reply()),
            !(opcode == '0' || opcode == '1' || opcode == '2' || opcode == '3' || opcode == '4')
                ==> r == OpcodeResult::Ignore,
    {
        if opcode == '0' {
            OpcodeResult::Close
        } else if opcode == '1' {
            let body = self.candidate_response(operand);
            let r = OpcodeResult::Reply(body);
            assert(reply_text(r) == Some(body@));
            r
        } else if opcode == '2' {
            let mut out = self.server_name.clone();
            out.push('/');
            push_all(&mut out, self.version.as_str());
            out.push(' ');
            assert(out@ =~= version_reply(self.server_name@, self.version@));
            OpcodeResult::Reply(out)
        } else if opcode == '3' {
            let mut out = local_host_name();
            out.push('/');
            push_all(&mut out, address);
            out.push(':');
            let digits = decimal_string(port);
            push_all(&mut out, digits.as_str());
            out.push(' ');
            assert(out@ =~= host_reply(address@, port));
            OpcodeResult::Reply(out)
        } else if opcode == '4' {
            OpcodeResult::Reply(miss_line())
        } else {
            OpcodeResult::Ignore
        }
    }
}

// ---------------------------------------------------------------------------
// Laws
// ---------------------------------------------------------------------------

proof fn lemma_trim_start_shape(s: Seq<char>)
    ensures
        trim_start(s).len() == 0 || !white(trim_start(s)[0]),
        trim_start(s).len() <= s.len(),
    decreases s.len(),
{
    if s.len() > 0 && white(s[0]) {
        lemma_trim_start_shape(s.drop_first());
    }
}

proof fn lemma_trim_end_shape(s: Seq<char>)
    ensures
        trim_end(s).len() == 0 || !white(trim_end(s).last()),
        trim_end(s).len() <= s.len(),
        trim_end(s) == s.take(trim_end(s).len() as int),
    decreases s.len(),
{
    if s.len() > 0 && white(s.last()) {
        lemma_trim_end_shape(s.drop_last());
        let t = trim_end(s.drop_last());
        assert(s.drop_last().take(t.len() as int) =~= s.take(t.len() as int));
    } else {
        assert(s.take(s.len() as int) =~= s);
    }
}

/// Trimmed text has no white space at either end.
proof fn lemma_trimmed_shape(s: Seq<char>)
    ensures
        trimmed(s).len() == 0 || (!white(trimmed(s)[0]) && !white(trimmed(s).last())),
{
    lemma_trim_start_shape(s);
    lemma_trim_end_shape(trim_start(s));
    let t = trimmed(s);
    if t.len() > 0 {
        assert(t[0] == trim_start(s).take(t.len() as int)[0]);
    }
}

proof fn lemma_trimmed_fixed(t: Seq<char>)
    requires
        t.len() == 0 || (!white(t[0]) && !white(t.last())),
    ensures
        trimmed(t) == t,
{
    assert(trim_start(t) == t);
    assert(trim_end(t) == t);
}

/// Normalising a normalised body changes nothing and finds no further
/// okurigana marker.
pub proof fn law_sanitize_idempotent(s: Seq<char>)
    ensures
        sanitized(sanitized(s).0) == (sanitized(s).0, None::<char>),
{
    let t = trimmed(s);
    lemma_trimmed_shape(s);
    lemma_trimmed_fixed(t);
    if t.len() > 0 && !all_ascii(t) {
        if let Some(c) = okuri_of(t) {
            let body = t.drop_last();
            assert(body.last() == t[t.len() - 2]);
            assert(body[0] == t[0]);
            lemma_trimmed_fixed(body);
            assert(!((body.last() as u32) < 0x80));
            assert(!all_ascii(body));
        }
    }
}

proof fn lemma_framed_no_delim(b: Seq<u8>, cs: IncomingCharset)
    requires
        forall|k: int| 0 <= k < b.len() ==> !is_delim(#[trigger] b[k]),
    ensures
        framed(b, cs) == (Seq::<(char, Seq<char>)>::empty(), b),
    decreases b.len(),
{
    if b.len() > 0 {
        lemma_framed_no_delim(b.drop_last(), cs);
        assert(b.drop_last().push(b.last()) =~= b);
    }
}

/// The bytes left pending hold no delimiter.
pub proof fn law_pending_has_no_delimiter(b: Seq<u8>, cs: IncomingCharset)
    ensures
        forall|k: int| 0 <= k < pending_in(b, cs).len() ==> !is_delim(#[trigger] pending_in(b, cs)[k]),
    decreases b.len(),
{
    if b.len() > 0 {
        law_pending_has_no_delimiter(b.drop_last(), cs);
        let p = pending_in(b.drop_last(), cs);
        if !is_delim(b.last()) {
            assert forall|k: int| 0 <= k < p.push(b.last()).len() implies !is_delim(
                #[trigger] p.push(b.last())[k],
            ) by {
                if k < p.len() {
                    assert(p.push(b.last())[k] == p[k]);
                } else {
                    assert(p.push(b.last())[k] == b.last());
                }
            }
        }
    }
}

/// Framing resumes across reads: the requests of `a` followed by `b` are the
/// requests completed in `a`, then those of `a`'s pending bytes followed by
/// `b`; what stays pending is the same either way.
pub proof fn law_framing_resumes(a: Seq<u8>, b: Seq<u8>, cs: IncomingCharset)
    ensures
        requests_in(a + b, cs) == requests_in(a, cs) + requests_in(pending_in(a, cs) + b, cs),
        pending_in(a + b, cs) == pending_in(pending_in(a, cs) + b, cs),
    decreases b.len(),
{
    let p = pending_in(a, cs);
    if b.len() == 0 {
        law_pending_has_no_delimiter(a, cs);
        lemma_framed_no_delim(p, cs);
        assert(a + b =~= a);
        assert(p + b =~= p);
        assert(requests_in(a, cs) + Seq::<(char, Seq<char>)>::empty() =~= requests_in(a, cs));
    } else {
        let b0 = b.drop_last();
        law_framing_resumes(a, b0, cs);
        assert((a + b).drop_last() =~= a + b0);
        assert((a + b).last() == b.last());
        assert((p + b).drop_last() =~= p + b0);
        assert((p + b).last() == b.last());
        let r0 = requests_in(a, cs);
        let q = framed(p + b0, cs);
        if is_delim(b.last()) {
            match request_of(q.1, cs) {
                Some(x) => {
                    assert((r0 + q.0).push(x) =~= r0 + q.0.push(x));
                },
                None => {},
            }
        }
    }
}

/// Every candidate carried in a reply is non-empty and free of framing
/// characters, so the reply splits back into exactly those candidates.
pub proof fn law_reply_candidates_are_wire_safe(cands: Seq<Seq<char>>)
    ensures
        forall|i: int| 0 <= i < wire_texts(cands).len() ==> (#[trigger] wire_texts(cands)[i]).len() > 0,
        forall|i: int, j: int|
            0 <= i < wire_texts(cands).len() && 0 <= j < wire_texts(cands)[i].len() ==> wire_safe(
                #[trigger] wire_texts(cands)[i][j],
            ),
    decreases cands.len(),
{
    if cands.len() > 0 {
        law_reply_candidates_are_wire_safe(cands.drop_last());
        lemma_for_wire_safe(cands.last());
        let p = wire_texts(cands.drop_last());
        let w = for_wire(cands.last());
        if w.len() > 0 {
            let q = p.push(w);
            assert forall|i: int| 0 <= i < q.len() implies (#[trigger] q[i]).len() > 0 by {
                if i < p.len() {
                    assert(q[i] == p[i]);
                }
            }
            assert forall|i: int, j: int| 0 <= i < q.len() && 0 <= j < q[i].len() implies wire_safe(
                #[trigger] q[i][j],
            ) by {
                if i < p.len() {
                    assert(q[i] == p[i]);
                    assert(wire_safe(p[i][j]));
                } else {
                    assert(q[i] == w);
                    assert(wire_safe(w[j]));
                }
            }
        }
    }
}

proof fn lemma_for_wire_safe(t: Seq<char>)
    ensures
        forall|j: int| 0 <= j < for_wire(t).len() ==> wire_safe(#[trigger] for_wire(t)[j]),
    decreases t.len(),
{
    if t.len() > 0 {
        lemma_for_wire_safe(t.drop_last());
        let p = for_wire(t.drop_last());
        if wire_safe(t.last()) {
            assert forall|j: int| 0 <= j < p.push(t.last()).len() implies wire_safe(
                #[trigger] p.push(t.last())[j],
            ) by {
                if j < p.len() {
                    assert(p.push(t.last())[j] == p[j]);
                }
            }
        }
    }
}

/// The number a string of decimal digits stands for.
pub open spec fn numeral_value(s: Seq<char>) -> int
    decreases s.len(),
{
    if s.len() == 0 {
        0
    } else {
        numeral_value(s.drop_last()) * 10 + ((s.last() as u32) as int - 48)
    }
}

pub open spec fn is_decimal_digit(c: char) -> bool {
    '0' <= c && c <= '9'
}

proof fn lemma_digit_char(d: int)
    requires
        0 <= d < 10,
    ensures
        (decimal_digits()[d] as u32) as int == 48 + d,
        is_decimal_digit(decimal_digits()[d]),
{
    let ds = decimal_digits();
    assert(ds[0] == '0' && ds[1] == '1' && ds[2] == '2' && ds[3] == '3' && ds[4] == '4');
    assert(ds[5] == '5' && ds[6] == '6' && ds[7] == '7' && ds[8] == '8' && ds[9] == '9');
}

/// The port numeral of the opcode-3 reply reads back as the port: it is made
/// of decimal digits, evaluates to `n`, and has no leading zero (it is `0`
/// only for zero).
pub proof fn law_decimal_reads_back(n: nat)
    ensures
        decimal(n).len() >= 1,
        forall|i: int| 0 <= i < decimal(n).len() ==> is_decimal_digit(#[trigger] decimal(n)[i]),
        numeral_value(decimal(n)) == n,
        decimal(n)[0] == '0' ==> n == 0,
    decreases n,
{
    if n < 10 {
        lemma_digit_char(n as int);
        let q = seq![decimal_digits()[n as int]];
        assert(q.drop_last() =~= Seq::<char>::empty());
        assert(numeral_value(Seq::<char>::empty()) == 0);
        assert(numeral_value(q) == numeral_value(q.drop_last()) * 10 + ((q.last() as u32) as int - 48));
        if n > 0 {
            assert(decimal(n)[0] != '0');
        }
    } else {
        law_decimal_reads_back(n / 10);
        lemma_digit_char((n % 10) as int);
        let p = decimal(n / 10);
        let q = p.push(decimal_digits()[(n % 10) as int]);
        assert(q.drop_last() =~= p);
        assert forall|i: int| 0 <= i < q.len() implies is_decimal_digit(#[trigger] q[i]) by {
            if i < p.len() {
                assert(q[i] == p[i]);
            }
        }
        assert(q[0] == p[0]);
        assert(numeral_value(q) == numeral_value(p) * 10 + ((q.last() as u32) as int - 48));
        assert(numeral_value(p) == n / 10);
        assert(n == (n / 10) * 10 + n % 10);
    }
}

} // verus!
