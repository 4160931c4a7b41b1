use vstd::prelude::*;
use crate::model::{HostEntry, EntryModel, Platform};
use crate::backup::{MetaScan, present};
use crate::ip::{valid_ip, is_hex, field_count, fields_are_u8, field_end, without_plus, lemma_field_end_bounds};
use crate::text::is_ws;
use crate::hosts::{header_text, hosts_text, system_text, lemma_skip_ws_bounds, entry_line, entries_text, parse_text, entries_from, newline_from, models, parse_line, line_text, is_token_char, skip_ws, skip_token, read_fields, lemma_newline_bounds, lemma_skip_token_bounds};

verus! {

/// Parsing is repeatable: two parses of the same text give the same entries.
pub proof fn parse_is_repeatable(text: Seq<char>, first: Seq<HostEntry>, second: Seq<HostEntry>)
    requires
        models(first) == parse_text(text),
        models(second) == parse_text(text),
    ensures
        models(first) == models(second),
        first.len() == second.len(),
{
    assert(first.len() == models(first).len());
    assert(second.len() == models(second).len());
}

proof fn lemma_entries_from_valid(s: Seq<char>, i: int)
    ensures
        forall|k: int|
            0 <= k < entries_from(s, i).len() ==> valid_ip(#[trigger] entries_from(s, i)[k].ip),
    decreases s.len() + 1 - i,
{
    let n = newline_from(s, i);
    if !(i < 0 || i >= s.len() || n < i || n > s.len()) {
        lemma_entries_from_valid(s, n + 1);
        let rest = entries_from(s, n + 1);
        match parse_line(line_text(s, i, n)) {
            Some(e) => {
                assert(entries_from(s, i) == seq![e] + rest);
                assert forall|k: int| 0 <= k < entries_from(s, i).len() implies valid_ip(
                    #[trigger] entries_from(s, i)[k].ip,
                ) by {
                    if k > 0 {
                        assert(entries_from(s, i)[k] == rest[k - 1]);
                    }
                }
            },
            None => {},
        }
    }
}

/// Every entry that parsing produces has a valid address.
pub proof fn parsed_addresses_are_valid(text: Seq<char>)
    ensures
        forall|k: int|
            0 <= k < parse_text(text).len() ==> valid_ip(#[trigger] parse_text(text)[k].ip),
{
    lemma_entries_from_valid(text, 0);
}

} // verus!

verus! {

pub open spec fn ip_char(c: char) -> bool {
    is_hex(c) || c == ':' || c == '.' || c == '+'
}

pub open spec fn all_tokens(s: Seq<char>) -> bool {
    forall|k: int| 0 <= k < s.len() ==> is_token_char(#[trigger] s[k])
}

pub open spec fn no_newline(s: Seq<char>) -> bool {
    forall|k: int| 0 <= k < s.len() ==> #[trigger] s[k] != '\n'
}

/// An entry that reads back as itself once written: a valid address and a
/// hostname that are both whole tokens, and a one-line comment that neither
/// starts with whitespace nor ends with a carriage return.
pub open spec fn renderable(e: EntryModel) -> bool {
    parsed_shape(e) && (e.comment.len() > 0 ==> e.comment.last() != '\r')
}

/// What every parsed entry looks like: a valid address and a hostname that
/// are both whole tokens, and a one-line comment that does not start with
/// whitespace.
pub open spec fn parsed_shape(e: EntryModel) -> bool {
    e.ip.len() > 0 && all_tokens(e.ip) && valid_ip(e.ip) && e.hostname.len() > 0 && all_tokens(
        e.hostname,
    ) && no_newline(e.comment) && (e.comment.len() > 0 ==> !is_ws(e.comment[0]))
}

pub open spec fn opt_entry(o: Option<EntryModel>) -> Seq<EntryModel> {
    match o {
        Some(e) => seq![e],
        None => Seq::empty(),
    }
}

proof fn lemma_fields_chars(s: Seq<char>, i: int)
    requires
        0 <= i <= s.len(),
        fields_are_u8(s, i),
    ensures
        forall|k: int| i <= k < s.len() ==> ip_char(#[trigger] s[k]),
    decreases s.len() - i,
{
    let e = field_end(s, i);
    lemma_field_end_bounds(s, i);
    let sub = s.subrange(i, e);
    let d = without_plus(sub);
    assert forall|k: int| i <= k < e implies ip_char(#[trigger] s[k]) by {
        if sub[0] == '+' {
            if k > i {
                assert(d[k - i - 1] == s[k]);
            }
        } else {
            assert(d[k - i] == s[k]);
        }
    }
    if e < s.len() {
        lemma_fields_chars(s, e + 1);
    }
}

/// Every character of a valid address is a hex digit, `:`, `.` or `+`.
proof fn lemma_valid_ip_chars(s: Seq<char>)
    requires
        valid_ip(s),
    ensures
        forall|k: int| 0 <= k < s.len() ==> ip_char(#[trigger] s[k]),
{
    if field_count(s, 0) == 4 {
        lemma_fields_chars(s, 0);
    }
}

proof fn lemma_skip_token_to(s: Seq<char>, i: int, j: int)
    requires
        0 <= i <= j <= s.len(),
        forall|k: int| i <= k < j ==> is_token_char(#[trigger] s[k]),
        j == s.len() || !is_token_char(s[j]),
    ensures
        skip_token(s, i) == j,
    decreases j - i,
{
    if i < j {
        lemma_skip_token_to(s, i + 1, j);
    }
}

proof fn lemma_skip_ws_to(s: Seq<char>, i: int, j: int)
    requires
        0 <= i <= j <= s.len(),
        forall|k: int| i <= k < j ==> is_ws(#[trigger] s[k]),
        j == s.len() || !is_ws(s[j]),
    ensures
        skip_ws(s, i) == j,
    decreases j - i,
{
    if i < j {
        lemma_skip_ws_to(s, i + 1, j);
    }
}

proof fn lemma_newline_at(s: Seq<char>, i: int, n: int)
    requires
        0 <= i <= n < s.len(),
        s[n] == '\n',
        forall|k: int| i <= k < n ==> #[trigger] s[k] != '\n',
    ensures
        newline_from(s, i) == n,
    decreases n - i,
{
    if i < n {
        lemma_newline_at(s, i + 1, n);
    }
}

proof fn lemma_newline_prefix(a: Seq<char>, b: Seq<char>, i: int)
    requires
        0 <= i < a.len(),
        a.last() == '\n',
    ensures
        newline_from(a + b, i) == newline_from(a, i),
    decreases a.len() - i,
{
    if a[i] != '\n' {
        lemma_newline_prefix(a, b, i + 1);
    }
}

proof fn lemma_newline_shift(a: Seq<char>, b: Seq<char>, j: int)
    requires
        0 <= j <= b.len(),
    ensures
        newline_from(a + b, a.len() + j) == a.len() + newline_from(b, j),
    decreases b.len() - j,
{
    if j < b.len() && b[j] != '\n' {
        lemma_newline_shift(a, b, j + 1);
    }
}

proof fn lemma_entries_shift(a: Seq<char>, b: Seq<char>, j: int)
    requires
        0 <= j <= b.len(),
    ensures
        entries_from(a + b, a.len() + j) == entries_from(b, j),
    decreases b.len() + 1 - j,
{
    let s = a + b;
    let i = a.len() + j;
    let nb = newline_from(b, j);
    lemma_newline_shift(a, b, j);
    lemma_newline_bounds(b, j);
    if j < b.len() {
        if nb < b.len() {
            lemma_entries_shift(a, b, nb + 1);
        } else {
            assert(entries_from(s, a.len() + nb + 1) == Seq::<EntryModel>::empty());
            assert(entries_from(b, nb + 1) == Seq::<EntryModel>::empty());
        }
        assert(line_text(s, i, a.len() + nb) =~= line_text(b, j, nb));
        assert(a.len() + nb + 1 == a.len() + (nb + 1));
    }
}

proof fn lemma_entries_concat(a: Seq<char>, b: Seq<char>, i: int)
    requires
        0 <= i <= a.len(),
        a.len() == 0 || a.last() == '\n',
    ensures
        entries_from(a + b, i) == entries_from(a, i) + entries_from(b, 0),
    decreases a.len() + 1 - i,
{
    if i == a.len() {
        lemma_entries_shift(a, b, 0);
        assert(entries_from(a, i) == Seq::<EntryModel>::empty());
        assert(entries_from(a, i) + entries_from(b, 0) =~= entries_from(b, 0));
    } else {
        let n = newline_from(a, i);
        lemma_newline_prefix(a, b, i);
        lemma_newline_bounds(a, i);
        assert(n < a.len());
        lemma_entries_concat(a, b, n + 1);
        assert(line_text(a + b, i, n) =~= line_text(a, i, n));
        let rest = entries_from(a, n + 1);
        match parse_line(line_text(a, i, n)) {
            Some(e) => {
                assert(seq![e] + rest + entries_from(b, 0) =~= seq![e] + (rest + entries_from(
                    b,
                    0,
                )));
            },
            None => {},
        }
    }
}

/// The entries of two pieces of text, the first made of whole lines, are
/// the entries of each in turn.
pub proof fn lemma_parse_concat(a: Seq<char>, b: Seq<char>)
    requires
        a.len() == 0 || a.last() == '\n',
    ensures
        parse_text(a + b) == parse_text(a) + parse_text(b),
{
    lemma_entries_concat(a, b, 0);
}

pub open spec fn strip_cr(l: Seq<char>) -> Seq<char> {
    if l.len() > 0 && l.last() == '\r' {
        l.drop_last()
    } else {
        l
    }
}

proof fn lemma_single_line(l: Seq<char>)
    requires
        no_newline(l),
    ensures
        parse_text(l + "\n"@) == opt_entry(parse_line(strip_cr(l))),
{
    reveal_strlit("\n");
    let s = l + "\n"@;
    let n = l.len() as int;
    assert(s[n] == '\n');
    assert forall|k: int| 0 <= k < n implies #[trigger] s[k] != '\n' by {
        assert(s[k] == l[k]);
    }
    lemma_newline_at(s, 0, n);
    assert(line_text(s, 0, n) =~= strip_cr(l));
    assert(entries_from(s, n + 1) == Seq::<EntryModel>::empty());
    match parse_line(strip_cr(l)) {
        Some(e) => {
            assert(seq![e] + Seq::<EntryModel>::empty() =~= seq![e]);
        },
        None => {},
    }
}

/// A line `# ` followed by a token that holds a character no address holds
/// is no entry.
proof fn lemma_not_an_entry(l: Seq<char>, k: int)
    requires
        2 <= k < l.len(),
        l[0] == '#',
        l[1] == ' ',
        forall|j: int| 2 <= j <= k ==> is_token_char(#[trigger] l[j]),
        !ip_char(l[k]),
    ensures
        parse_line(l) is None,
{
    lemma_skip_ws_to(l, 0, 0);
    lemma_skip_ws_to(l, 1, 2);
    lemma_skip_token_bounds(l, k + 1);
    assert forall|j: int| 2 <= j < k + 1 implies is_token_char(#[trigger] l[j]) by {}
    lemma_skip_token_from(l, 2, k + 1);
    let a = skip_token(l, 2);
    if let Some(f) = read_fields(l, 2) {
        assert(f.0 == l.subrange(2, a));
        assert(f.0[k - 2] == l[k]);
        if valid_ip(f.0) {
            lemma_valid_ip_chars(f.0);
        }
    }
}

proof fn lemma_skip_token_from(s: Seq<char>, i: int, j: int)
    requires
        0 <= i <= j <= s.len(),
        forall|k: int| i <= k < j ==> is_token_char(#[trigger] s[k]),
    ensures
        skip_token(s, i) == skip_token(s, j),
    decreases j - i,
{
    if i < j {
        lemma_skip_token_from(s, i + 1, j);
    }
}


pub open spec fn entry_body(e: EntryModel) -> Seq<char> {
    (if e.enabled {
        Seq::empty()
    } else {
        "# "@
    }) + e.ip + "\t"@ + e.hostname + (if e.comment.len() == 0 {
        Seq::empty()
    } else {
        "\t# "@ + e.comment
    })
}

proof fn lemma_entry_body(e: EntryModel)
    requires
        renderable(e),
    ensures
        parse_line(entry_body(e)) == Some(e),
        no_newline(entry_body(e)),
        entry_body(e).len() > 0 && entry_body(e).last() != '\r',
{
    reveal_strlit("# ");
    reveal_strlit("\t");
    reveal_strlit("\t# ");
    let body = entry_body(e);
    let o: int = if e.enabled {
        0
    } else {
        2
    };
    let ip = e.ip;
    let host = e.hostname;
    let cm = e.comment;
    let ai = o + ip.len();
    let b = ai + 1;
    let c = b + host.len();
    assert(!e.enabled ==> body[0] == '#' && body[1] == ' ');
    assert forall|k: int| o <= k < ai implies #[trigger] body[k] == ip[k - o] by {}
    assert(body[ai] == '\t');
    assert forall|k: int| b <= k < c implies #[trigger] body[k] == host[k - b] by {}
    if cm.len() > 0 {
        assert(body.len() == c + 3 + cm.len());
        assert(body[c] == '\t' && body[c + 1] == '#' && body[c + 2] == ' ');
        assert forall|k: int| c + 3 <= k < body.len() implies #[trigger] body[k] == cm[k - c - 3] by {}
    } else {
        assert(body.len() == c);
    }
    assert(body[o] == ip[0]);
    assert(is_token_char(ip[0]));
    lemma_skip_ws_to(body, 0, 0);
    if !e.enabled {
        lemma_skip_ws_to(body, 1, 2);
    }
    assert forall|k: int| o <= k < ai implies is_token_char(#[trigger] body[k]) by {
        assert(body[k] == ip[k - o]);
    }
    lemma_skip_token_to(body, o, ai);
    assert(body[b] == host[0]);
    assert(is_token_char(host[0]));
    lemma_skip_ws_to(body, ai, b);
    assert forall|k: int| b <= k < c implies is_token_char(#[trigger] body[k]) by {
        assert(body[k] == host[k - b]);
    }
    lemma_skip_token_to(body, b, c);
    assert(body.subrange(o, ai) =~= ip);
    assert(body.subrange(b, c) =~= host);
    if cm.len() > 0 {
        lemma_skip_ws_to(body, c, c + 1);
        assert(body[c + 3] == cm[0]);
        lemma_skip_ws_to(body, c + 2, c + 3);
        assert(body.subrange(c + 3, body.len() as int) =~= cm);
        assert(body.last() == cm.last());
    } else {
        assert(body.last() == host.last());
        assert(is_token_char(host[host.len() - 1]));
    }
    assert forall|k: int| 0 <= k < body.len() implies #[trigger] body[k] != '\n' by {
        if o <= k < ai {
            assert(is_token_char(ip[k - o]));
        } else if b <= k < c {
            assert(is_token_char(host[k - b]));
        } else if cm.len() > 0 && c + 3 <= k {
            assert(cm[k - c - 3] != '\n');
        }
    }
    let start = if !e.enabled {
        skip_ws(body, 1)
    } else {
        skip_ws(body, 0)
    };
    assert(start == o);
    assert(skip_token(body, o) == ai);
    assert(skip_ws(body, ai) == b);
    assert(skip_token(body, b) == c);
    if cm.len() > 0 {
        assert(skip_ws(body, c) == c + 1);
        assert(skip_ws(body, c + 2) == c + 3);
        assert(read_fields(body, o) == Some((ip, host, cm)));
    } else {
        assert(cm =~= Seq::<char>::empty());
        assert(read_fields(body, o) == Some((ip, host, cm)));
    }
    assert(parse_line(body) =~= Some(e));
}

/// A rendered entry line reads back as that entry.
proof fn lemma_entry_line(e: EntryModel)
    requires
        renderable(e),
    ensures
        parse_text(entry_line(e)) == seq![e],
        entry_line(e).last() == '\n',
{
    reveal_strlit("\n");
    lemma_entry_body(e);
    assert(entry_line(e) == entry_body(e) + "\n"@);
    lemma_single_line(entry_body(e));
    assert(strip_cr(entry_body(e)) == entry_body(e));
}

/// Rendered entries read back as the same entries, in order.
proof fn lemma_entries_text(es: Seq<EntryModel>)
    requires
        forall|k: int| 0 <= k < es.len() ==> renderable(#[trigger] es[k]),
    ensures
        parse_text(entries_text(es)) == es,
        entries_text(es).len() == 0 || entries_text(es).last() == '\n',
    decreases es.len(),
{
    if es.len() == 0 {
        assert(parse_text(Seq::empty()) == Seq::<EntryModel>::empty());
    } else {
        let init = es.drop_last();
        assert forall|k: int| 0 <= k < init.len() implies renderable(#[trigger] init[k]) by {
            assert(init[k] == es[k]);
        }
        lemma_entries_text(init);
        lemma_entry_line(es.last());
        lemma_parse_concat(entries_text(init), entry_line(es.last()));
        assert(init + seq![es.last()] =~= es);
    }
}


proof fn lemma_header(ts: Seq<char>, platform: Platform)
    requires
        no_newline(ts),
    ensures
        parse_text(header_text(ts, platform)) == parse_text(system_text(platform)),
        header_text(ts, platform).last() == '\n',
{
    reveal_strlit("\n");
    reveal_strlit("\n\n");
    reveal_strlit("# Hosts file managed by Hosts Editor\n");
    reveal_strlit("# Last modified: ");
    reveal_strlit("# System entries\n");
    reveal_strlit("\n# Custom entries\n");
    reveal_strlit("# Custom entries\n");
    reveal_strlit("127.0.0.1\tlocalhost\n");
    reveal_strlit("::1\tlocalhost\n");
    reveal_strlit("127.0.0.1\tlocalhost.localdomain\n");
    let a1 = "# Hosts file managed by Hosts Editor\n"@;
    let l2 = "# Last modified: "@ + ts;
    let a2 = l2 + "\n"@;
    let a3 = "\n"@;
    let a4 = "# System entries\n"@;
    let sys = system_text(platform);
    let a6 = "\n"@;
    let a7 = "# Custom entries\n"@;
    let h2 = a1 + a2;
    let h3 = h2 + a3;
    let h4 = h3 + a4;
    let h5 = h4 + sys;
    let h6 = h5 + a6;
    let h7 = h6 + a7;
    assert(header_text(ts, platform) =~= h7);
    assert(sys.last() == '\n');

    let l1 = a1.drop_last();
    assert(a1 =~= l1 + "\n"@);
    lemma_single_line(l1);
    lemma_not_an_entry(l1, 2);

    assert forall|k: int| 0 <= k < l2.len() implies #[trigger] l2[k] != '\n' by {
        if k >= 17 {
            assert(l2[k] == ts[k - 17]);
        }
    }
    lemma_single_line(l2);
    let s2 = strip_cr(l2);
    assert(s2[0] == '#' && s2[1] == ' ' && s2[2] == 'L');
    lemma_not_an_entry(s2, 2);

    assert(a3 =~= Seq::<char>::empty() + "\n"@);
    lemma_single_line(Seq::<char>::empty());
    assert(parse_line(Seq::<char>::empty()) is None);

    let l4 = a4.drop_last();
    assert(a4 =~= l4 + "\n"@);
    lemma_single_line(l4);
    lemma_not_an_entry(l4, 2);

    let l7 = a7.drop_last();
    assert(a7 =~= l7 + "\n"@);
    lemma_single_line(l7);
    lemma_not_an_entry(l7, 3);

    lemma_parse_concat(a1, a2);
    lemma_parse_concat(h2, a3);
    lemma_parse_concat(h3, a4);
    lemma_parse_concat(h4, sys);
    lemma_parse_concat(h5, a6);
    lemma_parse_concat(h6, a7);
    assert(parse_text(h7) =~= parse_text(sys));
}

/// Writing entries and reading the text back gives the system entries of
/// the platform followed by the same entries, in the same order.
pub proof fn render_then_parse(es: Seq<EntryModel>, timestamp: Seq<char>, platform: Platform)
    requires
        forall|k: int| 0 <= k < es.len() ==> renderable(#[trigger] es[k]),
        no_newline(timestamp),
    ensures
        parse_text(hosts_text(es, timestamp, platform)) == parse_text(system_text(platform)) + es,
{
    lemma_header(timestamp, platform);
    lemma_entries_text(es);
    lemma_parse_concat(header_text(timestamp, platform), entries_text(es));
}

proof fn lemma_parse_line_shape(l: Seq<char>)
    requires
        no_newline(l),
        parse_line(l) is Some,
    ensures
        parsed_shape(parse_line(l)->0),
{
    let e = parse_line(l)->0;
    let p = skip_ws(l, 0);
    lemma_skip_ws_bounds(l, 0);
    if p < l.len() && l[p] == '#' {
        lemma_skip_ws_bounds(l, p + 1);
    }
    let start = if p < l.len() && l[p] == '#' {
        skip_ws(l, p + 1)
    } else {
        p
    };
    let a = skip_token(l, start);
    lemma_skip_token_bounds(l, start);
    let b = skip_ws(l, a);
    lemma_skip_ws_bounds(l, a);
    let c = skip_token(l, b);
    lemma_skip_token_bounds(l, b);
    assert(e.ip =~= l.subrange(start, a));
    assert(e.hostname =~= l.subrange(b, c));
    assert forall|k: int| 0 <= k < e.ip.len() implies is_token_char(#[trigger] e.ip[k]) by {
        assert(e.ip[k] == l[start + k]);
    }
    assert forall|k: int| 0 <= k < e.hostname.len() implies is_token_char(
        #[trigger] e.hostname[k],
    ) by {
        assert(e.hostname[k] == l[b + k]);
    }
    if c < l.len() {
        let d = skip_ws(l, c);
        lemma_skip_ws_bounds(l, c);
        lemma_skip_ws_bounds(l, d + 1);
        let f = skip_ws(l, d + 1);
        assert(e.comment =~= l.subrange(f, l.len() as int));
        assert forall|k: int| 0 <= k < e.comment.len() implies #[trigger] e.comment[k] != '\n' by {
            assert(e.comment[k] == l[f + k]);
        }
    } else {
        assert(e.comment =~= Seq::<char>::empty());
    }
}

proof fn lemma_entries_from_shape(s: Seq<char>, i: int)
    ensures
        forall|k: int|
            0 <= k < entries_from(s, i).len() ==> parsed_shape(#[trigger] entries_from(s, i)[k]),
    decreases s.len() + 1 - i,
{
    let n = newline_from(s, i);
    if !(i < 0 || i >= s.len() || n < i || n > s.len()) {
        lemma_entries_from_shape(s, n + 1);
        lemma_newline_bounds(s, i);
        let rest = entries_from(s, n + 1);
        let line = line_text(s, i, n);
        match parse_line(line) {
            Some(e) => {
                assert forall|k: int| 0 <= k < line.len() implies #[trigger] line[k] != '\n' by {
                    assert(line[k] == s[i + k]);
                }
                lemma_parse_line_shape(line);
                assert(entries_from(s, i) == seq![e] + rest);
                assert forall|k: int| 0 <= k < entries_from(s, i).len() implies parsed_shape(
                    #[trigger] entries_from(s, i)[k],
                ) by {
                    if k > 0 {
                        assert(entries_from(s, i)[k] == rest[k - 1]);
                    }
                }
            },
            None => {},
        }
    }
}

/// Every parsed entry has a valid address and a hostname that are whole
/// tokens, and a one-line comment that does not start with whitespace.
pub proof fn parsed_entries_are_well_formed(text: Seq<char>)
    ensures
        forall|k: int| 0 <= k < parse_text(text).len() ==> parsed_shape(#[trigger] parse_text(text)[k]),
{
    lemma_entries_from_shape(text, 0);
}

/// Parsing what was rendered from parsed text gives back the same entries,
/// in the same order, after the platform's system entries; rendering adds no
/// other entry. A comment that ends in a carriage return loses it on the way,
/// so such entries are left out.
pub proof fn parse_render_parse(text: Seq<char>, timestamp: Seq<char>, platform: Platform)
    requires
        no_newline(timestamp),
        forall|k: int|
            0 <= k < parse_text(text).len() ==> (#[trigger] parse_text(text)[k]).comment.len() > 0
                ==> parse_text(text)[k].comment.last() != '\r',
    ensures
        parse_text(hosts_text(parse_text(text), timestamp, platform)) == parse_text(
            system_text(platform),
        ) + parse_text(text),
{
    let es = parse_text(text);
    parsed_entries_are_well_formed(text);
    assert forall|k: int| 0 <= k < es.len() implies renderable(#[trigger] es[k]) by {}
    render_then_parse(es, timestamp, platform);
}


proof fn lemma_present_contains(s: Seq<MetaScan>, x: MetaScan)
    ensures
        present(s).contains(x) <==> (s.contains(x) && x.content_present),
    decreases s.len(),
{
    if s.len() > 0 {
        let init = s.drop_last();
        let last = s.last();
        lemma_present_contains(init, x);
        assert(s =~= init.push(last));
        let ps = present(s);
        let pi = present(init);
        assert(last.content_present ==> ps == pi.push(last));
        assert(!last.content_present ==> ps == pi);
        if s.contains(x) && x.content_present {
            let j = choose|j: int| 0 <= j < s.len() && s[j] == x;
            if j < s.len() - 1 {
                assert(init[j] == x);
                assert(init.contains(x));
                let q = choose|q: int| 0 <= q < pi.len() && pi[q] == x;
                assert(ps[q] == x);
            } else {
                assert(ps[ps.len() - 1] == x);
            }
            assert(ps.contains(x));
        }
        if ps.contains(x) {
            let j = choose|j: int| 0 <= j < ps.len() && ps[j] == x;
            if last.content_present && j == ps.len() - 1 {
                assert(s[s.len() - 1] == x);
            } else {
                assert(pi[j] == x);
                assert(pi.contains(x));
                let m = choose|m: int| 0 <= m < init.len() && init[m] == x;
                assert(s[m] == x);
            }
            assert(s.contains(x));
        }
    }
}

proof fn lemma_present_remove(s: Seq<MetaScan>, i: int)
    requires
        0 <= i < s.len(),
        s[i].content_present,
    ensures
        present(s.remove(i)).len() + 1 == present(s).len(),
    decreases s.len(),
{
    let t = s.remove(i);
    if i == s.len() - 1 {
        assert(t =~= s.drop_last());
    } else {
        lemma_present_remove(s.drop_last(), i);
        assert(t.drop_last() =~= s.drop_last().remove(i));
        assert(t.last() == s.last());
    }
}

/// A backup is listed exactly when its metadata was found and its content
/// file exists beside it.
pub proof fn listed_iff_present(scans: Seq<MetaScan>, listed: Seq<MetaScan>, x: MetaScan)
    requires
        listed.to_multiset() == present(scans).to_multiset(),
    ensures
        listed.contains(x) <==> (scans.contains(x) && x.content_present),
{
    broadcast use vstd::seq_lib::group_to_multiset_ensures;
    lemma_present_contains(scans, x);
    assert(listed.to_multiset().count(x) == present(scans).to_multiset().count(x));
    assert(listed.contains(x) <==> listed.to_multiset().count(x) > 0);
    assert(present(scans).contains(x) <==> present(scans).to_multiset().count(x) > 0);
}

/// Removing the files of one listed backup shortens the listing by exactly
/// one; when no other backup had its name, that name is no longer listed.
pub proof fn removal_shortens_listing(
    scans: Seq<MetaScan>,
    i: int,
    before: Seq<MetaScan>,
    after: Seq<MetaScan>,
)
    requires
        0 <= i < scans.len(),
        scans[i].content_present,
        before.to_multiset() == present(scans).to_multiset(),
        after.to_multiset() == present(scans.remove(i)).to_multiset(),
    ensures
        after.len() + 1 == before.len(),
        (forall|j: int| 0 <= j < scans.len() && j != i ==> (#[trigger] scans[j]).info.name@ != scans[i].info.name@)
            ==> forall|k: int| 0 <= k < after.len() ==> (#[trigger] after[k]).info.name@ != scans[i].info.name@,
{
    broadcast use vstd::seq_lib::group_to_multiset_ensures;
    vstd::seq_lib::to_multiset_len(before);
    vstd::seq_lib::to_multiset_len(after);
    vstd::seq_lib::to_multiset_len(present(scans));
    vstd::seq_lib::to_multiset_len(present(scans.remove(i)));
    lemma_present_remove(scans, i);
    if forall|j: int| 0 <= j < scans.len() && j != i ==> (#[trigger] scans[j]).info.name@ != scans[i].info.name@ {
        assert forall|k: int| 0 <= k < after.len() implies (#[trigger] after[k]).info.name@ != scans[i].info.name@ by {
            let x = after[k];
            assert(after.contains(x));
            listed_iff_present(scans.remove(i), after, x);
            let m = choose|m: int| 0 <= m < scans.remove(i).len() && scans.remove(i)[m] == x;
            if m < i {
                assert(scans[m] == x);
            } else {
                assert(scans[m + 1] == x);
            }
        }
    }
}

} // verus!
