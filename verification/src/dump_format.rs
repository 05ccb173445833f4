//! What a capture says of its payload: how a file name is read back field by field, and which
//! members a line of metadata has.

use vstd::prelude::*;

use crate::dump::{
    cap_or, context_json, dump_step, error_json, file_name, is_clear, law_file_names_distinct,
    meta_line, override_text, DumpCaps, DumpCounters, DumpRecord, MAX_CLEAR, MAX_PROG,
};
use crate::text::{
    decimal, decimal4, is_digit, json_escaped, law_decimal4_value, law_decimal_value,
    law_parse_decimal, parsed,
};

verus! {

/// The parts of a text between its underscores.
pub open spec fn fields(s: Seq<char>) -> Seq<Seq<char>>
    decreases s.len(),
{
    if s.len() == 0 {
        seq![Seq::empty()]
    } else {
        let before = fields(s.drop_last());
        if s.last() == '_' {
            before.push(Seq::empty())
        } else {
            before.drop_last().push(before.last().push(s.last()))
        }
    }
}

/// A letter or letters and a number behind them.
pub open spec fn tagged(tag: Seq<char>, n: nat) -> Seq<char> {
    tag + decimal(n)
}

/// The fields of a file name behind the codec.
pub open spec fn tail_fields(rec: &DumpRecord<'_>) -> Seq<Seq<char>> {
    let surface = tagged(seq!['s'], rec.surface_id as nat);
    let width = tagged(seq!['w'], rec.width as nat);
    let height = tagged(seq!['h'], rec.height as nat);
    let end = seq!['.', 'b', 'i', 'n'];
    match rec.context_id {
        Some(ctx) => seq![surface, width, height, tagged(seq!['c', 't', 'x'], ctx as nat) + end],
        None => seq![surface, width, height + end],
    }
}

proof fn lemma_some_field(s: Seq<char>)
    ensures
        fields(s).len() > 0,
    decreases s.len(),
{
    if s.len() > 0 {
        lemma_some_field(s.drop_last());
    }
}

/// Whether a text holds no underscore.
pub open spec fn unsplit(s: Seq<char>) -> bool {
    forall|i: int| 0 <= i < s.len() ==> #[trigger] s[i] != '_'
}

/// A text without an underscore lengthens the last field.
proof fn lemma_lengthened(a: Seq<char>, b: Seq<char>)
    requires
        unsplit(b),
    ensures
        fields(a + b) == fields(a).drop_last().push(fields(a).last() + b),
    decreases b.len(),
{
    lemma_some_field(a);
    if b.len() == 0 {
        assert(a + b =~= a);
        assert(fields(a).last() + b =~= fields(a).last());
        assert(fields(a) =~= fields(a).drop_last().push(fields(a).last()));
    } else {
        let c = b.drop_last();
        assert(b.last() != '_');
        assert forall|i: int| 0 <= i < c.len() implies #[trigger] c[i] != '_' by {
            assert(b[i] != '_');
        }
        lemma_lengthened(a, c);
        assert((a + b).drop_last() =~= a + c);
        let before = fields(a + c);
        assert(before.last() == fields(a).last() + c);
        assert(before.drop_last() =~= fields(a).drop_last());
        assert((fields(a).last() + c).push(b.last()) =~= fields(a).last() + b);
    }
}

/// An underscore starts a new field.
proof fn lemma_next_field(a: Seq<char>, mark: Seq<char>, b: Seq<char>, part: Seq<char>)
    requires
        mark.len() > 0,
        mark[0] == '_',
        part == mark.skip(1) + b,
        unsplit(part),
    ensures
        fields(a + mark + b) == fields(a).push(part),
{
    let s = a.push('_');
    assert(s.drop_last() =~= a);
    assert(a + mark + b =~= s + part);
    lemma_lengthened(s, part);
    assert(Seq::<char>::empty() + part =~= part);
    assert(fields(s).drop_last() =~= fields(a));
}

/// The fields of two texts with an underscore between them.
proof fn lemma_fields_concat(a: Seq<char>, b: Seq<char>)
    ensures
        fields(a + seq!['_'] + b) == fields(a) + fields(b),
    decreases b.len(),
{
    let s = a + seq!['_'];
    if b.len() == 0 {
        assert(s + b =~= s);
        assert(s.drop_last() =~= a);
        assert(fields(s) =~= fields(a) + fields(b));
    } else {
        let c = b.drop_last();
        lemma_fields_concat(a, c);
        lemma_some_field(c);
        assert((s + b).drop_last() =~= s + c);
        let before = fields(a) + fields(c);
        assert(before.last() == fields(c).last());
        assert(before.drop_last() =~= fields(a) + fields(c).drop_last());
        assert(fields(s + b) =~= fields(a) + fields(b));
    }
}

proof fn lemma_decimal_unsplit(n: nat)
    ensures
        unsplit(decimal(n)),
        unsplit(decimal4(n)),
{
    law_decimal_value(n);
    law_decimal4_value(n);
    assert forall|i: int| 0 <= i < decimal(n).len() implies #[trigger] decimal(n)[i] != '_' by {
        assert(is_digit(decimal(n)[i]));
    }
    assert forall|i: int| 0 <= i < decimal4(n).len() implies #[trigger] decimal4(n)[i] != '_' by {
        assert(is_digit(decimal4(n)[i]));
    }
}

proof fn lemma_single_field(s: Seq<char>)
    requires
        unsplit(s),
    ensures
        fields(s) == seq![s],
{
    let none = Seq::<char>::empty();
    assert(none + s =~= s);
    lemma_lengthened(none, s);
    assert(fields(none) == seq![none]);
    assert(seq![none].drop_last() =~= Seq::empty());
    assert(fields(s) =~= seq![s]);
}

proof fn lemma_tagged_unsplit(tag: Seq<char>, n: nat)
    requires
        unsplit(tag),
    ensures
        unsplit(tagged(tag, n)),
{
    lemma_decimal_unsplit(n);
}

/// The fields of a name up to the codec.
proof fn lemma_head_fields(rec: &DumpRecord<'_>, seq: u64)
    ensures
        fields(decimal4(seq as nat) + "_"@ + rec.codec@) == seq![decimal4(seq as nat)] + fields(
            rec.codec@,
        ),
{
    let d = decimal4(seq as nat);
    reveal_strlit("_");
    assert("_"@ =~= seq!['_']);
    lemma_fields_concat(d, rec.codec@);
    lemma_decimal_unsplit(seq as nat);
    lemma_single_field(d);
}

/// The fields of a name up to the height.
proof fn lemma_size_fields(s2: Seq<char>, surface: nat, width: nat, height: nat)
    ensures
        fields(
            s2 + "_s"@ + decimal(surface) + "_w"@ + decimal(width) + "_h"@ + decimal(height),
        ) == fields(s2) + seq![
            tagged(seq!['s'], surface),
            tagged(seq!['w'], width),
            tagged(seq!['h'], height),
        ],
{
    reveal_strlit("_s");
    reveal_strlit("_w");
    reveal_strlit("_h");
    assert("_s"@.skip(1) =~= seq!['s']);
    assert("_w"@.skip(1) =~= seq!['w']);
    assert("_h"@.skip(1) =~= seq!['h']);
    let surface_part = tagged(seq!['s'], surface);
    let width_part = tagged(seq!['w'], width);
    let height_part = tagged(seq!['h'], height);
    lemma_tagged_unsplit(seq!['s'], surface);
    lemma_tagged_unsplit(seq!['w'], width);
    lemma_tagged_unsplit(seq!['h'], height);
    lemma_next_field(s2, "_s"@, decimal(surface), surface_part);
    let s4 = s2 + "_s"@ + decimal(surface);
    lemma_next_field(s4, "_w"@, decimal(width), width_part);
    let s6 = s4 + "_w"@ + decimal(width);
    lemma_next_field(s6, "_h"@, decimal(height), height_part);
    assert(fields(s2).push(surface_part).push(width_part).push(height_part) =~= fields(s2) + seq![
        surface_part,
        width_part,
        height_part,
    ]);
}

/// A file name is read back by its underscores: the sequence number, the codec, then the surface
/// id behind an `s`, the width behind a `w`, the height behind an `h`, and the context id, if there
/// is one, behind `ctx`; the last of them ends in `.bin`.
pub proof fn law_file_name_fields(rec: &DumpRecord<'_>, seq: u64)
    ensures
        fields(file_name(rec, seq)) == seq![decimal4(seq as nat)] + fields(rec.codec@)
            + tail_fields(rec),
        unsplit(rec.codec@) ==> fields(rec.codec@) == seq![rec.codec@],
{
    let s2 = decimal4(seq as nat) + "_"@ + rec.codec@;
    lemma_head_fields(rec, seq);
    lemma_size_fields(s2, rec.surface_id as nat, rec.width as nat, rec.height as nat);
    let s8 = s2 + "_s"@ + decimal(rec.surface_id as nat) + "_w"@ + decimal(rec.width as nat)
        + "_h"@ + decimal(rec.height as nat);
    let surface = tagged(seq!['s'], rec.surface_id as nat);
    let width = tagged(seq!['w'], rec.width as nat);
    let height = tagged(seq!['h'], rec.height as nat);
    assert(".bin"@ =~= seq!['.', 'b', 'i', 'n']) by {
        reveal_strlit(".bin");
    }
    assert(unsplit(".bin"@));
    let front = seq![decimal4(seq as nat)] + fields(rec.codec@);
    let sizes = seq![surface, width, height];
    match rec.context_id {
        Some(ctx) => {
            reveal_strlit("_ctx");
            assert("_ctx"@.skip(1) =~= seq!['c', 't', 'x']);
            let part = tagged(seq!['c', 't', 'x'], ctx as nat);
            lemma_tagged_unsplit(seq!['c', 't', 'x'], ctx as nat);
            lemma_next_field(s8, "_ctx"@, decimal(ctx as nat), part);
            let s10 = s8 + "_ctx"@ + decimal(ctx as nat);
            lemma_lengthened(s10, ".bin"@);
            assert(fields(s10).drop_last() =~= front + sizes);
            assert((front + sizes).push(part + ".bin"@) =~= front + tail_fields(rec));
        },
        None => {
            lemma_lengthened(s8, ".bin"@);
            assert((front + sizes).drop_last() =~= front + seq![surface, width]);
            assert((front + seq![surface, width]).push(height + ".bin"@) =~= front + tail_fields(
                rec,
            ));
        },
    }
    if unsplit(rec.codec@) {
        lemma_single_field(rec.codec@);
    }
}

proof fn lemma_decimal_tells_apart(m: nat, n: nat)
    requires
        decimal(m) == decimal(n),
    ensures
        m == n,
{
    law_decimal_value(m);
    law_decimal_value(n);
}

/// Equal tags in front of numbers, and equal texts behind them, leave equal numbers.
proof fn lemma_tagged_tells_apart(tag: Seq<char>, m: nat, n: nat, end: Seq<char>)
    requires
        tagged(tag, m) + end == tagged(tag, n) + end,
    ensures
        m == n,
{
    let s = tagged(tag, m) + end;
    let t = tagged(tag, n) + end;
    assert(s.len() == tag.len() + decimal(m).len() + end.len());
    assert(t.len() == tag.len() + decimal(n).len() + end.len());
    let from = tag.len() as int;
    let to = (tag.len() + decimal(m).len()) as int;
    assert(s.subrange(from, to) =~= decimal(m));
    assert(t.subrange(from, to) =~= decimal(n));
    lemma_decimal_tells_apart(m, n);
}

proof fn lemma_tail_tells_apart(
    a: &DumpRecord<'_>,
    b: &DumpRecord<'_>,
    x: Seq<Seq<char>>,
    y: Seq<Seq<char>>,
)
    requires
        x + tail_fields(a) == y + tail_fields(b),
    ensures
        a.surface_id == b.surface_id,
        a.width == b.width,
        a.height == b.height,
        a.context_id == b.context_id,
{
    let s = x + tail_fields(a);
    let t = y + tail_fields(b);
    let end = seq!['.', 'b', 'i', 'n'];
    let none = Seq::<char>::empty();
    assert(s.last() == tail_fields(a).last());
    assert(t.last() == tail_fields(b).last());
    match (a.context_id, b.context_id) {
        (Some(m), Some(n)) => {
            lemma_tagged_tells_apart(seq!['c', 't', 'x'], m as nat, n as nat, end);
            let k = s.len() - 4;
            assert(s[k] == tail_fields(a)[0] && t[k] == tail_fields(b)[0]);
            assert(s[k + 1] == tail_fields(a)[1] && t[k + 1] == tail_fields(b)[1]);
            assert(s[k + 2] == tail_fields(a)[2] && t[k + 2] == tail_fields(b)[2]);
            lemma_tagged_tells_apart(seq!['s'], a.surface_id as nat, b.surface_id as nat, none);
            lemma_tagged_tells_apart(seq!['w'], a.width as nat, b.width as nat, none);
            lemma_tagged_tells_apart(seq!['h'], a.height as nat, b.height as nat, none);
        },
        (None, None) => {
            let k = s.len() - 3;
            assert(s[k] == tail_fields(a)[0] && t[k] == tail_fields(b)[0]);
            assert(s[k + 1] == tail_fields(a)[1] && t[k + 1] == tail_fields(b)[1]);
            lemma_tagged_tells_apart(seq!['s'], a.surface_id as nat, b.surface_id as nat, none);
            lemma_tagged_tells_apart(seq!['w'], a.width as nat, b.width as nat, none);
            lemma_tagged_tells_apart(seq!['h'], a.height as nat, b.height as nat, end);
        },
        (Some(m), None) => {
            assert(s.last()[0] == 'c');
            assert(t.last()[0] == 'h');
        },
        (None, Some(n)) => {
            assert(s.last()[0] == 'h');
            assert(t.last()[0] == 'c');
        },
    }
}

/// A file name tells payloads apart: two that differ in their sequence number, surface, width,
/// height or context go to different files.
pub proof fn law_file_name_tells_apart(a: &DumpRecord<'_>, m: u64, b: &DumpRecord<'_>, n: u64)
    requires
        file_name(a, m) == file_name(b, n),
    ensures
        m == n,
        a.surface_id == b.surface_id,
        a.width == b.width,
        a.height == b.height,
        a.context_id == b.context_id,
{
    if m != n {
        law_file_names_distinct(a, m, b, n);
    }
    law_file_name_fields(a, m);
    law_file_name_fields(b, n);
    lemma_tail_tells_apart(
        a,
        b,
        seq![decimal4(m as nat)] + fields(a.codec@),
        seq![decimal4(n as nat)] + fields(b.codec@),
    );
}

/// One member of a JSON object: a key in quotes, a colon and a value.
pub open spec fn member(key: Seq<char>, value: Seq<char>) -> Seq<char> {
    seq!['"'] + key + seq!['"', ':'] + value
}

/// The members of a JSON object, with commas between them.
pub open spec fn members(list: Seq<(Seq<char>, Seq<char>)>) -> Seq<char>
    decreases list.len(),
{
    if list.len() == 0 {
        Seq::empty()
    } else if list.len() == 1 {
        member(list[0].0, list[0].1)
    } else {
        members(list.drop_last()) + seq![','] + member(list.last().0, list.last().1)
    }
}

/// A text in quotes.
pub open spec fn quoted(s: Seq<char>) -> Seq<char> {
    seq!['"'] + s + seq!['"']
}

/// The members of a line of metadata: texts in quotes, numbers in decimal notation, and `null` for
/// what is absent. The capabilities and the error are escaped.
pub open spec fn meta_members(rec: &DumpRecord<'_>, seq: u64) -> Seq<(Seq<char>, Seq<char>)> {
    seq![
        ("seq"@, decimal(seq as nat)),
        ("file"@, quoted(file_name(rec, seq))),
        ("codec"@, quoted(rec.codec@)),
        ("surface"@, decimal(rec.surface_id as nat)),
        ("width"@, decimal(rec.width as nat)),
        ("height"@, decimal(rec.height as nat)),
        (
            "context_id"@,
            if rec.context_id is Some {
                decimal(rec.context_id->Some_0 as nat)
            } else {
                seq!['n', 'u', 'l', 'l']
            },
        ),
        ("caps"@, quoted(json_escaped(rec.caps@))),
        ("bytes"@, decimal(rec.data@.len())),
        (
            "error"@,
            if rec.error is Some {
                quoted(json_escaped(rec.error->Some_0@))
            } else {
                seq!['n', 'u', 'l', 'l']
            },
        ),
    ]
}

proof fn lemma_member_push(
    list: Seq<(Seq<char>, Seq<char>)>,
    line: Seq<char>,
    mark: Seq<char>,
    key: Seq<char>,
    value: Seq<char>,
)
    requires
        list.len() > 0,
        line == seq!['{'] + members(list),
        mark == seq![',', '"'] + key + seq!['"', ':'],
    ensures
        line + mark + value == seq!['{'] + members(list.push((key, value))),
{
    let longer = list.push((key, value));
    assert(longer.drop_last() =~= list);
    assert(line + mark + value =~= line + (seq![','] + member(key, value)));
    assert(members(longer) =~= members(list) + (seq![','] + member(key, value)));
}

/// A line of metadata is a JSON object with the members of its payload, in their order, and a line
/// feed.
pub proof fn law_meta_members(rec: &DumpRecord<'_>, seq: u64)
    ensures
        meta_line(rec, seq) == seq!['{'] + members(meta_members(rec, seq)) + seq!['}', '\n'],
{
    lemma_context_and_error(rec);
    let m = meta_members(rec, seq);
    let l1 = seq![m[0]];
    let l2 = l1.push(m[1]);
    let l3 = l2.push(m[2]);
    let l4 = l3.push(m[3]);
    let l5 = l4.push(m[4]);
    let l6 = l5.push(m[5]);
    let l7 = l6.push(m[6]);
    let l8 = l7.push(m[7]);
    let l9 = l8.push(m[8]);
    let l10 = l9.push(m[9]);
    assert(l10 =~= m);
    let p1 = lemma_first_member(m[0].1, l1);
    let file = file_name(rec, seq);
    let p2 = p1 + ",\"file\":\""@ + file;
    lemma_file_member(l1, p1, file);
    lemma_codec_member(l2, p2, rec.codec@);
    let p3 = p2 + "\",\"codec\":\""@ + rec.codec@;
    lemma_surface_member(l3, p3, m[3].1);
    let p4 = p3 + "\",\"surface\":"@ + m[3].1;
    lemma_plain_members(l4, p4, m[4].1, m[5].1, m[6].1);
    let p7 = p4 + ",\"width\":"@ + m[4].1 + ",\"height\":"@ + m[5].1 + ",\"context_id\":"@
        + m[6].1;
    let caps = json_escaped(rec.caps@);
    lemma_caps_member(l7, p7, caps);
    let p8 = p7 + ",\"caps\":\""@ + caps;
    lemma_bytes_member(l8, p8, m[8].1);
    let p9 = p8 + "\",\"bytes\":"@ + m[8].1;
    lemma_error_member(l9, p9, m[9].1);
    let p10 = p9 + ",\"error\":"@ + m[9].1;
    reveal_strlit("}\n");
    assert("}\n"@ =~= seq!['}', '\n']);
    assert(meta_line(rec, seq) == p10 + "}\n"@);
}

proof fn lemma_context_and_error(rec: &DumpRecord<'_>)
    ensures
        context_json(rec.context_id) == if rec.context_id is Some {
            decimal(rec.context_id->Some_0 as nat)
        } else {
            seq!['n', 'u', 'l', 'l']
        },
        error_json(rec.error) == if rec.error is Some {
            quoted(json_escaped(rec.error->Some_0@))
        } else {
            seq!['n', 'u', 'l', 'l']
        },
{
    reveal_strlit("null");
    reveal_strlit("\"");
    assert("null"@ =~= seq!['n', 'u', 'l', 'l']);
    assert("\""@ =~= seq!['"']);
}

proof fn lemma_first_member(value: Seq<char>, list: Seq<(Seq<char>, Seq<char>)>) -> (line: Seq<
    char,
>)
    requires
        list == seq![("seq"@, value)],
    ensures
        line == "{\"seq\":"@ + value,
        line == seq!['{'] + members(list),
{
    reveal_strlit("{\"seq\":");
    reveal_strlit("seq");
    let line = "{\"seq\":"@ + value;
    assert(line =~= seq!['{'] + member("seq"@, value));
    line
}

/// The mark of a member: the comma behind the one before it, its key and the colon.
spec fn mark(key: Seq<char>) -> Seq<char> {
    seq![',', '"'] + key + seq!['"', ':']
}

/// What is written so far, short of the quote that closes the value of the last member.
spec fn lacks_quote(list: Seq<(Seq<char>, Seq<char>)>, line: Seq<char>) -> bool {
    line + seq!['"'] == seq!['{'] + members(list)
}

/// A text member, short of its closing quote, behind a finished one.
proof fn lemma_text_member(
    list: Seq<(Seq<char>, Seq<char>)>,
    line: Seq<char>,
    literal: Seq<char>,
    key: Seq<char>,
    text: Seq<char>,
)
    requires
        list.len() > 0,
        line == seq!['{'] + members(list),
        literal == mark(key) + seq!['"'],
    ensures
        lacks_quote(list.push((key, quoted(text))), line + literal + text),
{
    lemma_member_push(list, line, mark(key), key, quoted(text));
    assert(line + literal + text + seq!['"'] =~= line + mark(key) + quoted(text));
}

proof fn lemma_file_member(list: Seq<(Seq<char>, Seq<char>)>, line: Seq<char>, text: Seq<char>)
    requires
        list.len() > 0,
        line == seq!['{'] + members(list),
    ensures
        lacks_quote(list.push(("file"@, quoted(text))), line + ",\"file\":\""@ + text),
{
    reveal_strlit(",\"file\":\"");
    reveal_strlit("file");
    assert(",\"file\":\""@ =~= mark("file"@) + seq!['"']);
    lemma_text_member(list, line, ",\"file\":\""@, "file"@, text);
}

proof fn lemma_caps_member(list: Seq<(Seq<char>, Seq<char>)>, line: Seq<char>, text: Seq<char>)
    requires
        list.len() > 0,
        line == seq!['{'] + members(list),
    ensures
        lacks_quote(list.push(("caps"@, quoted(text))), line + ",\"caps\":\""@ + text),
{
    reveal_strlit(",\"caps\":\"");
    reveal_strlit("caps");
    assert(",\"caps\":\""@ =~= mark("caps"@) + seq!['"']);
    lemma_text_member(list, line, ",\"caps\":\""@, "caps"@, text);
}

proof fn lemma_codec_member(list: Seq<(Seq<char>, Seq<char>)>, line: Seq<char>, text: Seq<char>)
    requires
        list.len() > 0,
        lacks_quote(list, line),
    ensures
        lacks_quote(list.push(("codec"@, quoted(text))), line + "\",\"codec\":\""@ + text),
{
    reveal_strlit("\",\"codec\":\"");
    reveal_strlit("codec");
    let literal = mark("codec"@) + seq!['"'];
    assert("\",\"codec\":\""@ =~= seq!['"'] + literal);
    lemma_text_member(list, line + seq!['"'], literal, "codec"@, text);
    assert(line + "\",\"codec\":\""@ + text =~= line + seq!['"'] + literal + text);
}

/// A member whose value is no text, behind one that lacks its closing quote.
proof fn lemma_behind_text(
    list: Seq<(Seq<char>, Seq<char>)>,
    line: Seq<char>,
    literal: Seq<char>,
    key: Seq<char>,
    value: Seq<char>,
)
    requires
        list.len() > 0,
        lacks_quote(list, line),
        literal == seq!['"'] + mark(key),
    ensures
        line + literal + value == seq!['{'] + members(list.push((key, value))),
{
    lemma_member_push(list, line + seq!['"'], mark(key), key, value);
    assert(line + literal + value =~= line + seq!['"'] + mark(key) + value);
}

proof fn lemma_surface_member(list: Seq<(Seq<char>, Seq<char>)>, line: Seq<char>, value: Seq<char>)
    requires
        list.len() > 0,
        lacks_quote(list, line),
    ensures
        line + "\",\"surface\":"@ + value == seq!['{'] + members(list.push(("surface"@, value))),
{
    reveal_strlit("\",\"surface\":");
    reveal_strlit("surface");
    assert("\",\"surface\":"@ =~= seq!['"'] + mark("surface"@));
    lemma_behind_text(list, line, "\",\"surface\":"@, "surface"@, value);
}

proof fn lemma_bytes_member(list: Seq<(Seq<char>, Seq<char>)>, line: Seq<char>, value: Seq<char>)
    requires
        list.len() > 0,
        lacks_quote(list, line),
    ensures
        line + "\",\"bytes\":"@ + value == seq!['{'] + members(list.push(("bytes"@, value))),
{
    reveal_strlit("\",\"bytes\":");
    reveal_strlit("bytes");
    assert("\",\"bytes\":"@ =~= seq!['"'] + mark("bytes"@));
    lemma_behind_text(list, line, "\",\"bytes\":"@, "bytes"@, value);
}

proof fn lemma_error_member(list: Seq<(Seq<char>, Seq<char>)>, line: Seq<char>, value: Seq<char>)
    requires
        list.len() > 0,
        line == seq!['{'] + members(list),
    ensures
        line + ",\"error\":"@ + value == seq!['{'] + members(list.push(("error"@, value))),
{
    reveal_strlit(",\"error\":");
    reveal_strlit("error");
    assert(",\"error\":"@ =~= mark("error"@));
    lemma_member_push(list, line, ",\"error\":"@, "error"@, value);
}

proof fn lemma_plain_members(
    list: Seq<(Seq<char>, Seq<char>)>,
    line: Seq<char>,
    width: Seq<char>,
    height: Seq<char>,
    context: Seq<char>,
)
    requires
        list.len() > 0,
        line == seq!['{'] + members(list),
    ensures
        line + ",\"width\":"@ + width + ",\"height\":"@ + height + ",\"context_id\":"@ + context
            == seq!['{'] + members(
            list.push(("width"@, width)).push(("height"@, height)).push(("context_id"@, context)),
        ),
{
    assert(",\"width\":"@ == mark("width"@)) by {
        reveal_strlit(",\"width\":");
        reveal_strlit("width");
        assert(",\"width\":"@ =~= mark("width"@));
    }
    assert(",\"height\":"@ == mark("height"@)) by {
        reveal_strlit(",\"height\":");
        reveal_strlit("height");
        assert(",\"height\":"@ =~= mark("height"@));
    }
    assert(",\"context_id\":"@ == mark("context_id"@)) by {
        reveal_strlit(",\"context_id\":");
        reveal_strlit("context_id");
        assert(",\"context_id\":"@ =~= mark("context_id"@));
    }
    lemma_member_push(list, line, ",\"width\":"@, "width"@, width);
    let line2 = line + ",\"width\":"@ + width;
    let list2 = list.push(("width"@, width));
    lemma_member_push(list2, line2, ",\"height\":"@, "height"@, height);
    let line3 = line2 + ",\"height\":"@ + height;
    let list3 = list2.push(("height"@, height));
    lemma_member_push(list3, line3, ",\"context_id\":"@, "context_id"@, context);
}

/// A text that writes a number overrides a cap, and a text that does not, or no text, leaves it;
/// a plus sign in front of the number changes nothing.
pub proof fn law_cap_override(text: &str, n: u64, default: u64)
    ensures
        cap_or(override_text(None), default) == default,
        text@ == decimal(n as nat) ==> cap_or(override_text(Some(text)), default) == n,
        text@ == seq!['+'] + decimal(n as nat) ==> cap_or(override_text(Some(text)), default) == n,
        parsed(text@) is None ==> cap_or(override_text(Some(text)), default) == default,
        parsed(text@) is Some ==> Some(cap_or(override_text(Some(text)), default)) == parsed(text@),
{
    law_parse_decimal(n);
    law_decimal_value(n as nat);
    let d = decimal(n as nat);
    assert((seq!['+'] + d).skip(1) =~= d);
    assert(is_digit(d[0]));
}

/// Without an override 40 ClearCodec and 2000 Progressive payloads are captured.
pub proof fn law_default_caps()
    ensures
        cap_or(None, MAX_CLEAR) == 40,
        cap_or(None, MAX_PROG) == 2000,
{
}

/// Each payload is counted once, for its codec, and each captured one takes the next sequence
/// number; every counter starts over at `2^64`.
pub proof fn law_step_counts(counters: DumpCounters, caps: DumpCaps, clear: bool)
    ensures
        ({
            let (captured, next) = dump_step(counters, caps, clear);
            let seen = if clear {
                counters.clear_n
            } else {
                counters.prog_n
            };
            let cap = if clear {
                caps.clear
            } else {
                caps.prog
            };
            &&& captured is Some <==> seen < cap
            &&& captured is Some ==> captured->Some_0 == counters.seq
            &&& next.seq == (counters.seq + if captured is Some {
                1int
            } else {
                0int
            }) % 0x1_0000_0000_0000_0000
            &&& next.clear_n == (counters.clear_n + if clear {
                1int
            } else {
                0int
            }) % 0x1_0000_0000_0000_0000
            &&& next.prog_n == (counters.prog_n + if clear {
                0int
            } else {
                1int
            }) % 0x1_0000_0000_0000_0000
        }),
{
}

/// A payload counts as ClearCodec exactly where its codec is named so, letter for letter.
pub proof fn law_clear_by_name(rec: &DumpRecord<'_>)
    ensures
        is_clear(rec) <==> rec.codec@ == seq!['c', 'l', 'e', 'a', 'r', 'c', 'o', 'd', 'e', 'c'],
{
    reveal_strlit("clearcodec");
    assert("clearcodec"@ =~= seq!['c', 'l', 'e', 'a', 'r', 'c', 'o', 'd', 'e', 'c']);
}

} // verus!
