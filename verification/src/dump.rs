//! Capture of raw EGFX codec payloads for offline replay.
//!
//! The first payloads of each codec are captured, up to a cap. Every captured payload gets a
//! sequence number, a file name and one line of metadata.

use vstd::prelude::*;
use vstd::string::StringExecFns;

use crate::text::{
    decimal, decimal4, digit, is_digit, json_escape, json_escaped, json_string,
    law_decimal4_value, law_decimal_value, law_escape_round_trip, law_escaped_one_line, parse_u64,
    parsed, push_decimal, push_decimal4,
};

verus! {

/// How many ClearCodec payloads are captured unless told otherwise.
pub const MAX_CLEAR: u64 = 40;

/// How many Progressive payloads are captured unless told otherwise.
pub const MAX_PROG: u64 = 2000;

/// A cap that may be overridden by a text that writes a number.
pub open spec fn cap_or(text: Option<Seq<char>>, default: u64) -> u64 {
    match text {
        Some(t) => match parsed(t) {
            Some(cap) => cap,
            None => default,
        },
        None => default,
    }
}

/// The text of an override, if there is one.
pub open spec fn override_text(text: Option<&str>) -> Option<Seq<char>> {
    match text {
        Some(t) => Some(t@),
        None => None,
    }
}

/// The number that overrides a cap, or the cap.
fn overridden(text: Option<&str>, default: u64) -> (cap: u64)
    ensures
        cap == cap_or(override_text(text), default),
{
    match text {
        Some(t) => match parse_u64(t) {
            Some(cap) => cap,
            None => default,
        },
        None => default,
    }
}

/// The cap on Progressive payloads, given the text that overrides it.
pub fn prog_cap(text: Option<&str>) -> (cap: u64)
    ensures
        cap == cap_or(override_text(text), MAX_PROG),
        text is None ==> cap == 2000,
{
    overridden(text, MAX_PROG)
}

/// The cap on ClearCodec payloads, given the text that overrides it.
pub fn clear_cap(text: Option<&str>) -> (cap: u64)
    ensures
        cap == cap_or(override_text(text), MAX_CLEAR),
        text is None ==> cap == 40,
{
    overridden(text, MAX_CLEAR)
}

/// One codec payload and its metadata.
pub struct DumpRecord<'a> {
    /// `"clearcodec"` or `"progressive"`.
    pub codec: &'a str,
    pub surface_id: u16,
    /// Decoder-input width (ClearCodec: width of the target rectangle; Progressive: width of the
    /// surface).
    pub width: u16,
    pub height: u16,
    /// Progressive codec context id; `None` for ClearCodec.
    pub context_id: Option<u32>,
    pub caps: &'a str,
    pub data: &'a [u8],
    /// Why the live decode failed; `None` if it succeeded or was done elsewhere.
    pub error: Option<&'a str>,
}

/// The file that a captured payload goes to, and its line of metadata.
pub struct DumpEntry {
    pub file: String,
    pub line: String,
}

/// The name of the file for a payload: the sequence number, what the payload is, and its context.
pub open spec fn file_name(rec: &DumpRecord<'_>, seq: u64) -> Seq<char> {
    let head = decimal4(seq as nat) + "_"@ + rec.codec@ + "_s"@ + decimal(rec.surface_id as nat)
        + "_w"@ + decimal(rec.width as nat) + "_h"@ + decimal(rec.height as nat);
    match rec.context_id {
        Some(ctx) => head + "_ctx"@ + decimal(ctx as nat) + ".bin"@,
        None => head + ".bin"@,
    }
}

/// A context id in JSON.
pub open spec fn context_json(context_id: Option<u32>) -> Seq<char> {
    match context_id {
        Some(ctx) => decimal(ctx as nat),
        None => "null"@,
    }
}

/// An error in JSON.
pub open spec fn error_json(error: Option<&str>) -> Seq<char> {
    match error {
        Some(e) => "\""@ + json_escaped(e@) + "\""@,
        None => "null"@,
    }
}

/// What stands in a line of metadata ahead of the text of the capabilities.
pub open spec fn before_caps(rec: &DumpRecord<'_>, seq: u64) -> Seq<char> {
    "{\"seq\":"@ + decimal(seq as nat) + ",\"file\":\""@ + file_name(rec, seq) + "\",\"codec\":\""@
        + rec.codec@ + "\",\"surface\":"@ + decimal(rec.surface_id as nat) + ",\"width\":"@
        + decimal(rec.width as nat) + ",\"height\":"@ + decimal(rec.height as nat)
        + ",\"context_id\":"@ + context_json(rec.context_id) + ",\"caps\":\""@
}

/// What stands in a line of metadata ahead of the error.
pub open spec fn before_error(rec: &DumpRecord<'_>, seq: u64) -> Seq<char> {
    before_caps(rec, seq) + json_escaped(rec.caps@) + "\",\"bytes\":"@ + decimal(rec.data@.len())
        + ",\"error\":"@
}

/// The line of metadata for a payload.
pub open spec fn meta_line(rec: &DumpRecord<'_>, seq: u64) -> Seq<char> {
    before_error(rec, seq) + error_json(rec.error) + "}\n"@
}

/// Builds the name of the file for a payload.
pub fn build_file_name(rec: &DumpRecord<'_>, seq: u64) -> (name: String)
    ensures
        name@ == file_name(rec, seq),
{
    let mut name = String::new();
    push_decimal4(&mut name, seq);
    name.append("_");
    name.append(rec.codec);
    name.append("_s");
    push_decimal(&mut name, rec.surface_id as u64);
    name.append("_w");
    push_decimal(&mut name, rec.width as u64);
    name.append("_h");
    push_decimal(&mut name, rec.height as u64);
    assert(Seq::<char>::empty() + decimal4(seq as nat) =~= decimal4(seq as nat));
    match rec.context_id {
        Some(ctx) => {
            name.append("_ctx");
            push_decimal(&mut name, ctx as u64);
        },
        None => {},
    }
    name.append(".bin");
    name
}

/// Builds the line of metadata for a payload.
pub fn build_meta_line(rec: &DumpRecord<'_>, seq: u64) -> (line: String)
    ensures
        line@ == meta_line(rec, seq),
{
    let file = build_file_name(rec, seq);
    let caps = json_escape(rec.caps);
    let mut line = String::new();
    line.append("{\"seq\":");
    assert(line@ =~= "{\"seq\":"@);
    push_decimal(&mut line, seq);
    line.append(",\"file\":\"");
    line.append(file.as_str());
    line.append("\",\"codec\":\"");
    line.append(rec.codec);
    line.append("\",\"surface\":");
    push_decimal(&mut line, rec.surface_id as u64);
    line.append(",\"width\":");
    push_decimal(&mut line, rec.width as u64);
    line.append(",\"height\":");
    push_decimal(&mut line, rec.height as u64);
    line.append(",\"context_id\":");
    let ghost before = line@;
    match rec.context_id {
        Some(ctx) => {
            push_decimal(&mut line, ctx as u64);
        },
        None => {
            line.append("null");
        },
    }
    assert(line@ == before + context_json(rec.context_id));
    line.append(",\"caps\":\"");
    line.append(caps.as_str());
    line.append("\",\"bytes\":");
    push_decimal(&mut line, rec.data.len() as u64);
    line.append(",\"error\":");
    let ghost before = line@;
    match rec.error {
        Some(e) => {
            let escaped = json_escape(e);
            line.append("\"");
            line.append(escaped.as_str());
            line.append("\"");
        },
        None => {
            line.append("null");
        },
    }
    assert(line@ =~= before + error_json(rec.error));
    line.append("}\n");
    line
}

/// How many payloads of each codec have been seen, and the next sequence number.
pub struct DumpCounters {
    pub seq: u64,
    pub clear_n: u64,
    pub prog_n: u64,
}

/// The caps on the payloads of each codec.
pub struct DumpCaps {
    pub clear: u64,
    pub prog: u64,
}

/// The counter after `n`; it starts over behind its largest value.
pub open spec fn counted(n: u64) -> u64 {
    if n == u64::MAX {
        0
    } else {
        (n + 1) as u64
    }
}

/// Counts a payload. It is captured, under the next sequence number, unless its codec has reached
/// its cap.
pub open spec fn dump_step(counters: DumpCounters, caps: DumpCaps, clear: bool) -> (
    Option<u64>,
    DumpCounters,
) {
    let captured = if clear {
        counters.clear_n < caps.clear
    } else {
        counters.prog_n < caps.prog
    };
    (
        if captured {
            Some(counters.seq)
        } else {
            None
        },
        DumpCounters {
            seq: if captured {
                counted(counters.seq)
            } else {
                counters.seq
            },
            clear_n: if clear {
                counted(counters.clear_n)
            } else {
                counters.clear_n
            },
            prog_n: if clear {
                counters.prog_n
            } else {
                counted(counters.prog_n)
            },
        },
    )
}

/// The counters before the first payload.
pub open spec fn dump_start() -> DumpCounters {
    DumpCounters { seq: 0, clear_n: 0, prog_n: 0 }
}

/// Whether a payload counts as a ClearCodec one; any other counts as Progressive.
pub open spec fn is_clear(rec: &DumpRecord<'_>) -> bool {
    rec.codec@ == "clearcodec"@
}

impl DumpCounters {
    /// Counters before the first payload.
    pub fn new() -> (counters: Self)
        ensures
            counters == dump_start(),
    {
        DumpCounters { seq: 0, clear_n: 0, prog_n: 0 }
    }

    /// Counts a payload and tells where it goes if it is captured.
    pub fn dump(&mut self, caps: &DumpCaps, rec: &DumpRecord<'_>) -> (entry: Option<DumpEntry>)
        ensures
            *final(self) == dump_step(*old(self), *caps, is_clear(rec)).1,
            match dump_step(*old(self), *caps, is_clear(rec)).0 {
                Some(seq) => entry matches Some(e) && e.file@ == file_name(rec, seq) && e.line@
                    == meta_line(rec, seq),
                None => entry is None,
            },
    {
        let clear = rec.codec.to_owned() == "clearcodec".to_owned();
        let seen: u64;
        let cap: u64;
        if clear {
            seen = self.clear_n;
            cap = caps.clear;
            self.clear_n = self.clear_n.wrapping_add(1);
        } else {
            seen = self.prog_n;
            cap = caps.prog;
            self.prog_n = self.prog_n.wrapping_add(1);
        }
        if seen >= cap {
            return None;
        }
        let seq: u64 = self.seq;
        self.seq = self.seq.wrapping_add(1);
        Some(DumpEntry { file: build_file_name(rec, seq), line: build_meta_line(rec, seq) })
    }
}

/// The counters after payloads of the given kinds, `true` for ClearCodec.
pub open spec fn dump_all(caps: DumpCaps, kinds: Seq<bool>) -> DumpCounters
    decreases kinds.len(),
{
    if kinds.len() == 0 {
        dump_start()
    } else {
        dump_step(dump_all(caps, kinds.drop_last()), caps, kinds.last()).1
    }
}

/// How many payloads are of the kind `clear`.
pub open spec fn count_kind(kinds: Seq<bool>, clear: bool) -> nat
    decreases kinds.len(),
{
    if kinds.len() == 0 {
        0
    } else {
        count_kind(kinds.drop_last(), clear) + if kinds.last() == clear {
            1nat
        } else {
            0nat
        }
    }
}

/// How many payloads out of `n` of one codec are captured.
pub open spec fn up_to(n: nat, cap: u64) -> nat {
    if n < cap {
        n
    } else {
        cap as nat
    }
}

/// The counters count the payloads of each codec, and the next sequence number is the number of
/// captured payloads: of each codec all of them up to its cap.
pub proof fn law_counters(caps: DumpCaps, kinds: Seq<bool>)
    requires
        kinds.len() <= u64::MAX,
    ensures
        dump_all(caps, kinds).clear_n == count_kind(kinds, true),
        dump_all(caps, kinds).prog_n == count_kind(kinds, false),
        dump_all(caps, kinds).seq == up_to(count_kind(kinds, true), caps.clear) + up_to(
            count_kind(kinds, false),
            caps.prog,
        ),
        count_kind(kinds, true) + count_kind(kinds, false) == kinds.len(),
    decreases kinds.len(),
{
    if kinds.len() > 0 {
        law_counters(caps, kinds.drop_last());
    }
}

/// Exactly the first payloads of each codec are captured, up to its cap, and the captured
/// payloads of all codecs are numbered from zero in the order in which they come.
pub proof fn law_first_payloads_captured(caps: DumpCaps, kinds: Seq<bool>, clear: bool)
    requires
        kinds.len() <= u64::MAX,
    ensures
        ({
            let cap = if clear {
                caps.clear
            } else {
                caps.prog
            };
            let captured = up_to(count_kind(kinds, true), caps.clear) + up_to(
                count_kind(kinds, false),
                caps.prog,
            );
            dump_step(dump_all(caps, kinds), caps, clear).0 == if count_kind(kinds, clear) < cap {
                Some(captured as u64)
            } else {
                None
            }
        }),
{
    law_counters(caps, kinds);
}

/// A name is the sequence number, an underscore, and something else.
proof fn lemma_name_starts(rec: &DumpRecord<'_>, seq: u64) -> (rest: Seq<char>)
    ensures
        file_name(rec, seq) == decimal4(seq as nat) + seq!['_'] + rest,
{
    reveal_strlit("_");
    let d = decimal4(seq as nat);
    let name = file_name(rec, seq);
    let rest = name.skip(d.len() as int + 1);
    assert("_"@ =~= seq!['_']);
    assert(name =~= d + seq!['_'] + rest);
    rest
}

/// Payloads with different sequence numbers go to different files.
pub proof fn law_file_names_distinct(a: &DumpRecord<'_>, m: u64, b: &DumpRecord<'_>, n: u64)
    requires
        m != n,
    ensures
        file_name(a, m) != file_name(b, n),
{
    let x = lemma_name_starts(a, m);
    let y = lemma_name_starts(b, n);
    law_decimal4_value(m as nat);
    law_decimal4_value(n as nat);
    let p = decimal4(m as nat);
    let q = decimal4(n as nat);
    let s = p + seq!['_'] + x;
    let t = q + seq!['_'] + y;
    if s == t {
        if p.len() < q.len() {
            assert(is_digit(q[p.len() as int]));
            assert(s[p.len() as int] == '_');
            assert(t[p.len() as int] == q[p.len() as int]);
        } else if q.len() < p.len() {
            assert(is_digit(p[q.len() as int]));
            assert(t[q.len() as int] == '_');
            assert(s[q.len() as int] == p[q.len() as int]);
        } else {
            assert(p =~= s.take(p.len() as int));
            assert(q =~= t.take(q.len() as int));
        }
    }
}

/// Whether `s` sorts ahead of `t`: at the first place where they differ, `s` has the smaller
/// character.
pub open spec fn sorts_before(s: Seq<char>, t: Seq<char>) -> bool {
    exists|i: int|
        0 <= i < s.len() && i < t.len() && s.take(i) == t.take(i) && #[trigger] s[i] < t[i]
}

/// The four digits of a number below ten thousand.
proof fn lemma_four_digits(n: nat)
    requires
        n < 10000,
    ensures
        decimal4(n) == seq![digit(n / 1000), digit(n / 100 % 10), digit(n / 10 % 10), digit(n % 10)],
{
    reveal_with_fuel(decimal, 5);
    assert(n / 10 / 10 == n / 100 && n / 10 / 10 / 10 == n / 1000);
    assert(decimal4(n) =~= seq![
        digit(n / 1000),
        digit(n / 100 % 10),
        digit(n / 10 % 10),
        digit(n % 10),
    ]);
}

/// The place of the first digit in which two numbers below ten thousand differ.
spec fn first_difference(m: nat, n: nat) -> int {
    if m / 1000 != n / 1000 {
        0
    } else if m / 100 != n / 100 {
        1
    } else if m / 10 != n / 10 {
        2
    } else {
        3
    }
}

proof fn lemma_first_difference(m: nat, n: nat)
    requires
        m < n < 10000,
    ensures
        decimal4(m).len() == 4,
        decimal4(n).len() == 4,
        decimal4(m).take(first_difference(m, n)) == decimal4(n).take(first_difference(m, n)),
        decimal4(m)[first_difference(m, n)] < decimal4(n)[first_difference(m, n)],
{
    lemma_four_digits(m);
    lemma_four_digits(n);
    let i = first_difference(m, n);
    let s = decimal4(m);
    let t = decimal4(n);
    assert(m / 1000 <= n / 1000 && m / 100 <= n / 100 && m / 10 <= n / 10);
    assert(n / 1000 < 10);
    assert(m / 100 / 10 == m / 1000 && n / 100 / 10 == n / 1000);
    assert(m / 10 / 10 == m / 100 && n / 10 / 10 == n / 100);
    assert(s.take(i) =~= t.take(i));
}

/// Sorting file names puts payloads in capture order, as long as the sequence numbers have four
/// digits.
pub proof fn law_file_names_sort(a: &DumpRecord<'_>, m: u64, b: &DumpRecord<'_>, n: u64)
    requires
        m < n < 10000,
    ensures
        sorts_before(file_name(a, m), file_name(b, n)),
{
    let x = lemma_name_starts(a, m);
    let y = lemma_name_starts(b, n);
    lemma_first_difference(m as nat, n as nat);
    let p = decimal4(m as nat);
    let q = decimal4(n as nat);
    let i = first_difference(m as nat, n as nat);
    let s = p + seq!['_'] + x;
    let t = q + seq!['_'] + y;
    assert(s.take(i) =~= p.take(i));
    assert(t.take(i) =~= q.take(i));
    assert(s[i] < t[i]);
}

/// Whether a text holds no line feed.
pub open spec fn one_line(s: Seq<char>) -> bool {
    forall|i: int| 0 <= i < s.len() ==> #[trigger] s[i] != '\n'
}

/// [`one_line`], kept folded.
#[verifier::opaque]
spec fn unbroken(s: Seq<char>) -> bool {
    one_line(s)
}

proof fn lemma_fold(s: Seq<char>)
    requires
        one_line(s),
    ensures
        unbroken(s),
{
    reveal(unbroken);
}

proof fn lemma_join(s: Seq<char>, t: Seq<char>)
    requires
        unbroken(s),
        unbroken(t),
    ensures
        unbroken(s + t),
{
    reveal(unbroken);
}

proof fn lemma_decimal_unbroken(n: nat)
    ensures
        unbroken(decimal(n)),
        unbroken(decimal4(n)),
{
    reveal(unbroken);
    law_decimal_value(n);
    law_decimal4_value(n);
    assert forall|i: int| 0 <= i < decimal(n).len() implies #[trigger] decimal(n)[i] != '\n' by {
        assert(is_digit(decimal(n)[i]));
    }
    assert forall|i: int| 0 <= i < decimal4(n).len() implies #[trigger] decimal4(n)[i] != '\n' by {
        assert(is_digit(decimal4(n)[i]));
    }
}

proof fn lemma_escaped_unbroken(s: Seq<char>)
    ensures
        unbroken(json_escaped(s)),
{
    law_escaped_one_line(s);
    lemma_fold(json_escaped(s));
}

/// The name of a file holds no line feed unless the name of its codec does.
proof fn lemma_file_name_unbroken(rec: &DumpRecord<'_>, seq: u64)
    requires
        one_line(rec.codec@),
    ensures
        unbroken(file_name(rec, seq)),
{
    assert(unbroken("_"@)) by {
        reveal_strlit("_");
        lemma_fold("_"@);
    }
    assert(unbroken("_s"@)) by {
        reveal_strlit("_s");
        lemma_fold("_s"@);
    }
    assert(unbroken("_w"@)) by {
        reveal_strlit("_w");
        lemma_fold("_w"@);
    }
    assert(unbroken("_h"@)) by {
        reveal_strlit("_h");
        lemma_fold("_h"@);
    }
    assert(unbroken("_ctx"@)) by {
        reveal_strlit("_ctx");
        lemma_fold("_ctx"@);
    }
    assert(unbroken(".bin"@)) by {
        reveal_strlit(".bin");
        lemma_fold(".bin"@);
    }
    lemma_fold(rec.codec@);
    lemma_decimal_unbroken(seq as nat);
    lemma_decimal_unbroken(rec.surface_id as nat);
    lemma_decimal_unbroken(rec.width as nat);
    lemma_decimal_unbroken(rec.height as nat);
    let s1 = decimal4(seq as nat) + "_"@;
    lemma_join(decimal4(seq as nat), "_"@);
    let s2 = s1 + rec.codec@;
    lemma_join(s1, rec.codec@);
    let s3 = s2 + "_s"@;
    lemma_join(s2, "_s"@);
    let s4 = s3 + decimal(rec.surface_id as nat);
    lemma_join(s3, decimal(rec.surface_id as nat));
    let s5 = s4 + "_w"@;
    lemma_join(s4, "_w"@);
    let s6 = s5 + decimal(rec.width as nat);
    lemma_join(s5, decimal(rec.width as nat));
    let s7 = s6 + "_h"@;
    lemma_join(s6, "_h"@);
    let s8 = s7 + decimal(rec.height as nat);
    lemma_join(s7, decimal(rec.height as nat));
    match rec.context_id {
        Some(ctx) => {
            lemma_decimal_unbroken(ctx as nat);
            let s9 = s8 + "_ctx"@;
            lemma_join(s8, "_ctx"@);
            let s10 = s9 + decimal(ctx as nat);
            lemma_join(s9, decimal(ctx as nat));
            lemma_join(s10, ".bin"@);
        },
        None => {
            lemma_join(s8, ".bin"@);
        },
    }
}

proof fn lemma_json_fields_unbroken(rec: &DumpRecord<'_>)
    ensures
        unbroken(context_json(rec.context_id)),
        unbroken(error_json(rec.error)),
{
    assert(unbroken("null"@)) by {
        reveal_strlit("null");
        lemma_fold("null"@);
    }
    assert(unbroken("\""@)) by {
        reveal_strlit("\"");
        lemma_fold("\""@);
    }
    if let Some(ctx) = rec.context_id {
        lemma_decimal_unbroken(ctx as nat);
    }
    if let Some(e) = rec.error {
        lemma_escaped_unbroken(e@);
        lemma_join("\""@, json_escaped(e@));
        lemma_join("\""@ + json_escaped(e@), "\""@);
    }
}

proof fn lemma_keys_unbroken()
    ensures
        unbroken("{\"seq\":"@),
        unbroken(",\"file\":\""@),
        unbroken("\",\"codec\":\""@),
        unbroken("\",\"surface\":"@),
        unbroken(",\"width\":"@),
        unbroken(",\"height\":"@),
        unbroken(",\"context_id\":"@),
        unbroken(",\"caps\":\""@),
        unbroken("\",\"bytes\":"@),
        unbroken(",\"error\":"@),
{
    assert(unbroken("{\"seq\":"@)) by {
        reveal_strlit("{\"seq\":");
        lemma_fold("{\"seq\":"@);
    }
    assert(unbroken(",\"file\":\""@)) by {
        reveal_strlit(",\"file\":\"");
        lemma_fold(",\"file\":\""@);
    }
    assert(unbroken("\",\"codec\":\""@)) by {
        reveal_strlit("\",\"codec\":\"");
        lemma_fold("\",\"codec\":\""@);
    }
    assert(unbroken("\",\"surface\":"@)) by {
        reveal_strlit("\",\"surface\":");
        lemma_fold("\",\"surface\":"@);
    }
    assert(unbroken(",\"width\":"@)) by {
        reveal_strlit(",\"width\":");
        lemma_fold(",\"width\":"@);
    }
    assert(unbroken(",\"height\":"@)) by {
        reveal_strlit(",\"height\":");
        lemma_fold(",\"height\":"@);
    }
    assert(unbroken(",\"context_id\":"@)) by {
        reveal_strlit(",\"context_id\":");
        lemma_fold(",\"context_id\":"@);
    }
    assert(unbroken(",\"caps\":\""@)) by {
        reveal_strlit(",\"caps\":\"");
        lemma_fold(",\"caps\":\""@);
    }
    assert(unbroken("\",\"bytes\":"@)) by {
        reveal_strlit("\",\"bytes\":");
        lemma_fold("\",\"bytes\":"@);
    }
    assert(unbroken(",\"error\":"@)) by {
        reveal_strlit(",\"error\":");
        lemma_fold(",\"error\":"@);
    }
}

/// The metadata of a payload is one line: it ends in a line feed and holds no other, whatever its
/// capabilities and its error say.
pub proof fn law_meta_is_one_line(rec: &DumpRecord<'_>, seq: u64)
    requires
        one_line(rec.codec@),
    ensures
        meta_line(rec, seq).len() > 0,
        meta_line(rec, seq).last() == '\n',
        one_line(meta_line(rec, seq).drop_last()),
{
    lemma_keys_unbroken();
    lemma_file_name_unbroken(rec, seq);
    lemma_json_fields_unbroken(rec);
    lemma_fold(rec.codec@);
    lemma_decimal_unbroken(seq as nat);
    lemma_decimal_unbroken(rec.surface_id as nat);
    lemma_decimal_unbroken(rec.width as nat);
    lemma_decimal_unbroken(rec.height as nat);
    lemma_decimal_unbroken(rec.data@.len());
    lemma_escaped_unbroken(rec.caps@);
    lemma_join("{\"seq\":"@, decimal(seq as nat));
    let s1 = "{\"seq\":"@ + decimal(seq as nat);
    lemma_join(s1, ",\"file\":\""@);
    let s2 = s1 + ",\"file\":\""@;
    lemma_join(s2, file_name(rec, seq));
    let s3 = s2 + file_name(rec, seq);
    lemma_join(s3, "\",\"codec\":\""@);
    let s4 = s3 + "\",\"codec\":\""@;
    lemma_join(s4, rec.codec@);
    let s5 = s4 + rec.codec@;
    lemma_join(s5, "\",\"surface\":"@);
    let s6 = s5 + "\",\"surface\":"@;
    lemma_join(s6, decimal(rec.surface_id as nat));
    let s7 = s6 + decimal(rec.surface_id as nat);
    lemma_join(s7, ",\"width\":"@);
    let s8 = s7 + ",\"width\":"@;
    lemma_join(s8, decimal(rec.width as nat));
    let s9 = s8 + decimal(rec.width as nat);
    lemma_join(s9, ",\"height\":"@);
    let s10 = s9 + ",\"height\":"@;
    lemma_join(s10, decimal(rec.height as nat));
    let s11 = s10 + decimal(rec.height as nat);
    lemma_join(s11, ",\"context_id\":"@);
    let s12 = s11 + ",\"context_id\":"@;
    lemma_join(s12, context_json(rec.context_id));
    let s13 = s12 + context_json(rec.context_id);
    lemma_join(s13, ",\"caps\":\""@);
    let s14 = s13 + ",\"caps\":\""@;
    lemma_join(s14, json_escaped(rec.caps@));
    let s15 = s14 + json_escaped(rec.caps@);
    lemma_join(s15, "\",\"bytes\":"@);
    let s16 = s15 + "\",\"bytes\":"@;
    lemma_join(s16, decimal(rec.data@.len()));
    let s17 = s16 + decimal(rec.data@.len());
    lemma_join(s17, ",\"error\":"@);
    let s18 = s17 + ",\"error\":"@;
    lemma_join(s18, error_json(rec.error));
    let s19 = s18 + error_json(rec.error);
    reveal_strlit("}\n");
    let end = "}\n"@;
    assert(meta_line(rec, seq) == s19 + end);
    let brace = seq!['}'];
    lemma_fold(brace);
    lemma_join(s19, brace);
    reveal(unbroken);
    assert(meta_line(rec, seq).drop_last() =~= s19 + brace);
}

/// A reader of JSON strings gets the capabilities and the error back out of a line of metadata,
/// whatever they say; behind the error only the end of the line is left.
pub proof fn law_meta_texts_read_back(rec: &DumpRecord<'_>, seq: u64)
    ensures
        ({
            let line = meta_line(rec, seq);
            let caps_at = before_caps(rec, seq).len() as int;
            let error_at = before_error(rec, seq).len() as int;
            &&& line.take(caps_at) == before_caps(rec, seq)
            &&& line.take(error_at) == before_error(rec, seq)
            &&& json_string(line.skip(caps_at)) matches Some((text, _)) && text == rec.caps@
            &&& match rec.error {
                Some(e) => json_string(line.skip(error_at + 1)) == Some((e@, "}\n"@)),
                None => line.skip(error_at) == "null}\n"@,
            }
        }),
{
    let line = meta_line(rec, seq);
    let head = before_caps(rec, seq);
    let escaped = json_escaped(rec.caps@);
    let bytes = "\",\"bytes\":"@;
    let mid = decimal(rec.data@.len());
    let key = ",\"error\":"@;
    let error = error_json(rec.error);
    let end = "}\n"@;
    assert(line == head + escaped + bytes + mid + key + error + end);
    assert(line.take(head.len() as int) =~= head);
    assert(line.take(before_error(rec, seq).len() as int) =~= before_error(rec, seq));
    assert(line.skip(before_error(rec, seq).len() as int) =~= error + end);
    assert(json_string(line.skip(head.len() as int)) matches Some((text, _)) && text == rec.caps@) by {
        reveal_strlit("\",\"bytes\":");
        let rest = bytes.skip(1) + mid + key + error + end;
        assert(line.skip(head.len() as int) =~= escaped + seq!['"'] + rest);
        law_escape_round_trip(rec.caps@, rest);
    }
    match rec.error {
        Some(e) => {
            reveal_strlit("\"");
            let inner = json_escaped(e@);
            assert(error + end =~= seq!['"'] + (inner + seq!['"'] + end));
            assert(line.skip(before_error(rec, seq).len() as int + 1) =~= inner + seq!['"'] + end) by {
                assert(line.skip(before_error(rec, seq).len() as int + 1) =~= (error + end).skip(1));
            }
            law_escape_round_trip(e@, end);
        },
        None => {
            reveal_strlit("null");
            reveal_strlit("}\n");
            reveal_strlit("null}\n");
            assert(error + end =~= "null}\n"@);
        },
    }
}

} // verus!
