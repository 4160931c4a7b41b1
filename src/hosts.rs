use vstd::prelude::*;
use crate::model::{HostEntry, EntryModel, Platform};
use crate::text::{is_ws, is_whitespace_char, char_vec, text_of_range};
use crate::ip::{valid_ip, is_valid_ip};

verus! {

/// A character that may stand in an address or a hostname token.
pub open spec fn is_token_char(c: char) -> bool {
    !is_ws(c) && c != '#'
}

/// The first position at or after `i` that is not whitespace.
pub open spec fn skip_ws(s: Seq<char>, i: int) -> int
    decreases s.len() - i,
{
    if 0 <= i < s.len() && is_ws(s[i]) {
        skip_ws(s, i + 1)
    } else {
        i
    }
}

/// The first position at or after `i` that cannot stand in a token.
pub open spec fn skip_token(s: Seq<char>, i: int) -> int
    decreases s.len() - i,
{
    if 0 <= i < s.len() && is_token_char(s[i]) {
        skip_token(s, i + 1)
    } else {
        i
    }
}

/// Reads `<ip> <hostname>`, optionally followed by `# <comment>`, from
/// position `i` to the end of `s`: the address token, at least one whitespace,
/// the hostname token, then either the end or whitespace, `#`, whitespace and
/// the comment, which runs to the end.
pub open spec fn read_fields(s: Seq<char>, i: int) -> Option<(Seq<char>, Seq<char>, Seq<char>)> {
    let a = skip_token(s, i);
    let b = skip_ws(s, a);
    let c = skip_token(s, b);
    if a == i || b == a || c == b {
        None
    } else if c == s.len() {
        Some((s.subrange(i, a), s.subrange(b, c), Seq::empty()))
    } else {
        let d = skip_ws(s, c);
        if d < s.len() && s[d] == '#' {
            Some((s.subrange(i, a), s.subrange(b, c), s.subrange(skip_ws(s, d + 1), s.len() as int)))
        } else {
            None
        }
    }
}

/// The entry that one line stands for, if any. A line whose first
/// non-whitespace character is `#` is read as a disabled entry after that `#`
/// and the whitespace following it; any other line as an enabled entry. The
/// address must be valid.
pub open spec fn parse_line(line: Seq<char>) -> Option<EntryModel> {
    let p = skip_ws(line, 0);
    let disabled = p < line.len() && line[p] == '#';
    let start = if disabled {
        skip_ws(line, p + 1)
    } else {
        p
    };
    match read_fields(line, start) {
        Some(f) => if valid_ip(f.0) {
            Some(EntryModel { ip: f.0, hostname: f.1, comment: f.2, enabled: !disabled })
        } else {
            None
        },
        None => None,
    }
}

/// The position of the first `\n` at or after `i`, or the length.
pub open spec fn newline_from(s: Seq<char>, i: int) -> int
    decreases s.len() - i,
{
    if i < 0 || i >= s.len() || s[i] == '\n' {
        i
    } else {
        newline_from(s, i + 1)
    }
}

/// The line that runs from `i` to the break at `n`; a `\r` just before a `\n`
/// belongs to the break.
pub open spec fn line_text(s: Seq<char>, i: int, n: int) -> Seq<char> {
    if i < n < s.len() && s[n - 1] == '\r' {
        s.subrange(i, n - 1)
    } else {
        s.subrange(i, n)
    }
}

/// The entries of the lines of `s` from the line that starts at `i` on.
pub open spec fn entries_from(s: Seq<char>, i: int) -> Seq<EntryModel>
    decreases s.len() + 1 - i,
{
    let n = newline_from(s, i);
    if i < 0 || i >= s.len() || n < i || n > s.len() {
        Seq::empty()
    } else {
        let rest = entries_from(s, n + 1);
        match parse_line(line_text(s, i, n)) {
            Some(e) => seq![e] + rest,
            None => rest,
        }
    }
}

/// The entries of hosts-file text, in the order of their lines.
pub open spec fn parse_text(s: Seq<char>) -> Seq<EntryModel> {
    entries_from(s, 0)
}

pub open spec fn models(es: Seq<HostEntry>) -> Seq<EntryModel> {
    es.map_values(|e: HostEntry| e@)
}

pub(crate) proof fn lemma_skip_ws_bounds(s: Seq<char>, i: int)
    requires
        0 <= i <= s.len(),
    ensures
        i <= skip_ws(s, i) <= s.len(),
        skip_ws(s, i) < s.len() ==> !is_ws(s[skip_ws(s, i)]),
    decreases s.len() - i,
{
    if i < s.len() && is_ws(s[i]) {
        lemma_skip_ws_bounds(s, i + 1);
    }
}

pub(crate) proof fn lemma_skip_token_bounds(s: Seq<char>, i: int)
    requires
        0 <= i <= s.len(),
    ensures
        i <= skip_token(s, i) <= s.len(),
        forall|k: int| i <= k < skip_token(s, i) ==> is_token_char(#[trigger] s[k]),
        skip_token(s, i) < s.len() ==> !is_token_char(s[skip_token(s, i)]),
    decreases s.len() - i,
{
    if i < s.len() && is_token_char(s[i]) {
        lemma_skip_token_bounds(s, i + 1);
    }
}

pub(crate) proof fn lemma_newline_bounds(s: Seq<char>, i: int)
    requires
        0 <= i <= s.len(),
    ensures
        i <= newline_from(s, i) <= s.len(),
        newline_from(s, i) < s.len() ==> s[newline_from(s, i)] == '\n',
        forall|k: int| i <= k < newline_from(s, i) ==> #[trigger] s[k] != '\n',
    decreases s.len() - i,
{
    if i < s.len() && s[i] != '\n' {
        lemma_newline_bounds(s, i + 1);
    }
}

fn skip_ws_at(s: &Vec<char>, i: usize) -> (r: usize)
    requires
        i <= s@.len(),
    ensures
        r == skip_ws(s@, i as int),
        i <= r <= s@.len(),
{
    proof {
        lemma_skip_ws_bounds(s@, i as int);
    }
    let mut k = i;
    while k < s.len() && is_whitespace_char(s[k])
        invariant
            i <= k <= s@.len(),
            skip_ws(s@, k as int) == skip_ws(s@, i as int),
        decreases s@.len() - k,
    {
        k = k + 1;
    }
    k
}

fn skip_token_at(s: &Vec<char>, i: usize) -> (r: usize)
    requires
        i <= s@.len(),
    ensures
        r == skip_token(s@, i as int),
        i <= r <= s@.len(),
{
    proof {
        lemma_skip_token_bounds(s@, i as int);
    }
    let mut k = i;
    while k < s.len() && !is_whitespace_char(s[k]) && s[k] != '#'
        invariant
            i <= k <= s@.len(),
            skip_token(s@, k as int) == skip_token(s@, i as int),
        decreases s@.len() - k,
    {
        k = k + 1;
    }
    k
}

fn read_fields_at(s: &Vec<char>, i: usize) -> (r: Option<(String, String, String)>)
    requires
        i <= s@.len(),
    ensures
        r matches Some(t) ==> read_fields(s@, i as int) == Some((t.0@, t.1@, t.2@)),
        r is None ==> read_fields(s@, i as int) is None,
{
    let a = skip_token_at(s, i);
    let b = skip_ws_at(s, a);
    let c = skip_token_at(s, b);
    if a == i || b == a || c == b {
        return None;
    }
    let ip = text_of_range(s, i, a);
    let hostname = text_of_range(s, b, c);
    if c == s.len() {
        return Some((ip, hostname, String::new()));
    }
    let d = skip_ws_at(s, c);
    if d < s.len() && s[d] == '#' {
        let e = skip_ws_at(s, d + 1);
        Some((ip, hostname, text_of_range(s, e, s.len())))
    } else {
        None
    }
}

/// The entry that one line stands for, if any.
fn parse_line_chars(line: &Vec<char>) -> (r: Option<HostEntry>)
    ensures
        r matches Some(e) ==> parse_line(line@) == Some(e@),
        r is None ==> parse_line(line@) is None,
{
    let p = skip_ws_at(line, 0);
    let disabled = p < line.len() && line[p] == '#';
    let start = if disabled {
        skip_ws_at(line, p + 1)
    } else {
        p
    };
    match read_fields_at(line, start) {
        Some((ip, hostname, comment)) => {
            if is_valid_ip(ip.as_str()) {
                Some(HostEntry { ip, hostname, comment, enabled: !disabled })
            } else {
                None
            }
        },
        None => None,
    }
}

/// Reads hosts-file text into entries, one for each line that holds a valid
/// address and a hostname, enabled or commented out; all other lines are
/// dropped.
pub fn parse_hosts_content(content: &str) -> (r: Vec<HostEntry>)
    ensures
        models(r@) == parse_text(content@),
        forall|k: int| 0 <= k < r@.len() ==> valid_ip((#[trigger] r@[k]).ip@),
{
    let s = char_vec(content);
    let n = s.len();
    let mut entries: Vec<HostEntry> = Vec::new();
    let mut i: usize = 0;
    while i < n
        invariant
            s@ == content@,
            n == s@.len(),
            0 <= i <= n,
            models(entries@) + entries_from(s@, i as int) == parse_text(s@),
        decreases n - i,
    {
        proof {
            lemma_newline_bounds(s@, i as int);
        }
        let mut e = i;
        while e < n && s[e] != '\n'
            invariant
                i <= e <= n,
                n == s@.len(),
                newline_from(s@, e as int) == newline_from(s@, i as int),
            decreases n - e,
        {
            e = e + 1;
        }
        let end = if i < e && e < n && s[e - 1] == '\r' {
            e - 1
        } else {
            e
        };
        let mut line: Vec<char> = Vec::new();
        let mut k: usize = i;
        while k < end
            invariant
                i <= k <= end <= n,
                n == s@.len(),
                line@ == s@.subrange(i as int, k as int),
            decreases end - k,
        {
            line.push(s[k]);
            k = k + 1;
            assert(line@ =~= s@.subrange(i as int, k as int));
        }
        assert(line@ == line_text(s@, i as int, e as int));
        let ghost before = entries@;
        match parse_line_chars(&line) {
            Some(entry) => {
                entries.push(entry);
                assert(models(entries@) =~= models(before) + seq![entry@]);
            },
            None => {},
        }
        i = if e < n {
            e + 1
        } else {
            n
        };
        proof {
            if e == n {
                assert(entries_from(s@, n as int + 1) == Seq::<EntryModel>::empty());
            }
        }
    }
    assert(models(entries@) =~= parse_text(s@));
    proof {
        crate::laws::parsed_addresses_are_valid(content@);
        assert forall|k: int| 0 <= k < entries@.len() implies valid_ip(
            (#[trigger] entries@[k]).ip@,
        ) by {
            assert(models(entries@).len() == entries@.len());
            assert(models(entries@)[k] == entries@[k]@);
            assert(parse_text(content@)[k] == entries@[k]@);
            assert(valid_ip(parse_text(content@)[k].ip));
        }
    }
    entries
}

/// The line that one entry is written as: disabled entries start with `# `;
/// a non-empty comment follows a tab and `# `.
pub open spec fn entry_line(e: EntryModel) -> Seq<char> {
    (if e.enabled {
        Seq::empty()
    } else {
        "# "@
    }) + e.ip + "\t"@ + e.hostname + (if e.comment.len() == 0 {
        Seq::empty()
    } else {
        "\t# "@ + e.comment
    }) + "\n"@
}

/// The lines of a sequence of entries, in order.
pub open spec fn entries_text(es: Seq<EntryModel>) -> Seq<char>
    decreases es.len(),
{
    if es.len() == 0 {
        Seq::empty()
    } else {
        entries_text(es.drop_last()) + entry_line(es.last())
    }
}

/// The fixed entries that every written hosts file holds.
pub open spec fn system_text(platform: Platform) -> Seq<char> {
    "127.0.0.1\tlocalhost\n"@ + "::1\tlocalhost\n"@ + (if platform == Platform::Windows {
        "127.0.0.1\tlocalhost.localdomain\n"@
    } else {
        Seq::empty()
    })
}

/// Everything a written hosts file holds before the user's entries.
pub open spec fn header_text(timestamp: Seq<char>, platform: Platform) -> Seq<char> {
    "# Hosts file managed by Hosts Editor\n"@ + "# Last modified: "@ + timestamp + "\n\n"@
        + "# System entries\n"@ + system_text(platform) + "\n# Custom entries\n"@
}

/// A whole written hosts file.
pub open spec fn hosts_text(es: Seq<EntryModel>, timestamp: Seq<char>, platform: Platform) -> Seq<
    char,
> {
    header_text(timestamp, platform) + entries_text(es)
}

/// Writes `entries` as hosts-file text: a header stamped with `timestamp`, the
/// system entries of `platform`, then one line for each entry.
pub fn generate_hosts_content(entries: &[HostEntry], timestamp: &str, platform: Platform) -> (r:
    String)
    ensures
        r@ == hosts_text(models(entries@), timestamp@, platform),
{
    let mut result = String::new();
    result.append("# Hosts file managed by Hosts Editor\n");
    result.append("# Last modified: ");
    result.append(timestamp);
    result.append("\n\n");
    result.append("# System entries\n");
    result.append("127.0.0.1\tlocalhost\n");
    result.append("::1\tlocalhost\n");
    if platform == Platform::Windows {
        result.append("127.0.0.1\tlocalhost.localdomain\n");
    }
    result.append("\n# Custom entries\n");
    assert(result@ =~= header_text(timestamp@, platform));
    let ghost head = result@;
    let mut i: usize = 0;
    while i < entries.len()
        invariant
            0 <= i <= entries@.len(),
            result@ == head + entries_text(models(entries@.take(i as int))),
        decreases entries@.len() - i,
    {
        let entry = &entries[i];
        let ghost prev = result@;
        if !entry.enabled {
            result.append("# ");
        }
        result.append(entry.ip.as_str());
        result.append("\t");
        result.append(entry.hostname.as_str());
        if !entry.comment.as_str().is_empty() {
            result.append("\t# ");
            result.append(entry.comment.as_str());
        }
        result.append("\n");
        proof {
            let m = models(entries@.take(i as int + 1));
            assert(m.drop_last() =~= models(entries@.take(i as int)));
            assert(m.last() == entry@);
            assert(result@ =~= prev + entry_line(entry@));
        }
        i = i + 1;
    }
    assert(entries@.take(entries@.len() as int) =~= entries@);
    result
}

/// Relies on `chrono::Local::now` formatted by `DelayedFormat` as
/// `%Y-%m-%d %H:%M:%S`: the local time now; none of those items writes a
/// line break.
#[verifier::external_body]
fn local_time_text() -> (r: String)
    ensures
        forall|k: int| 0 <= k < r@.len() ==> #[trigger] r@[k] != '\n',
{
    chrono::Local::now().format("%Y-%m-%d %H:%M:%S").to_string()
}

/// Writes `entries` as hosts-file text stamped with the local time now.
pub fn render_hosts_file(entries: &[HostEntry], platform: Platform) -> (r: String)
    ensures
        exists|timestamp: Seq<char>|
            (forall|k: int| 0 <= k < timestamp.len() ==> #[trigger] timestamp[k] != '\n')
                && r@ == hosts_text(models(entries@), timestamp, platform),
{
    let stamp = local_time_text();
    let r = generate_hosts_content(entries, stamp.as_str(), platform);
    assert(r@ == hosts_text(models(entries@), stamp@, platform));
    r
}

/// Where the system hosts file lives on `platform`.
pub open spec fn hosts_path(platform: Platform) -> Seq<char> {
    if platform == Platform::Windows {
        "C:\\Windows\\System32\\drivers\\etc\\hosts"@
    } else {
        "/etc/hosts"@
    }
}

/// The location of the system hosts file on `platform`.
pub fn get_hosts_file_path(platform: Platform) -> (r: String)
    ensures
        r@ == hosts_path(platform),
{
    if platform == Platform::Windows {
        String::from_str("C:\\Windows\\System32\\drivers\\etc\\hosts")
    } else {
        String::from_str("/etc/hosts")
    }
}

/// The last-resort copy written beside the hosts file before each save.
pub fn emergency_backup_path(platform: Platform) -> (r: String)
    ensures
        r@ == hosts_path(platform) + ".backup"@,
{
    get_hosts_file_path(platform).concat(".backup")
}

} // verus!
