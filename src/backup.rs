use vstd::prelude::*;
use crate::model::BackupInfo;
use crate::text::{is_ws, is_whitespace_char, char_vec, text_of, text_of_range};
use crate::hosts::skip_ws;

verus! {

/// A character that file names may not hold on some platform.
pub open spec fn is_reserved(c: char) -> bool {
    c == '<' || c == '>' || c == ':' || c == '"' || c == '|' || c == '?' || c == '*' || c == '/'
        || c == '\\'
}

pub open spec fn replace_reserved(s: Seq<char>) -> Seq<char> {
    s.map_values(|c: char| if is_reserved(c) { '_' } else { c })
}

/// The position after the last character before `j` that is not whitespace.
pub open spec fn back_ws(s: Seq<char>, j: int) -> int
    decreases j,
{
    if 0 < j <= s.len() && is_ws(s[j - 1]) {
        back_ws(s, j - 1)
    } else {
        j
    }
}

/// `s` without leading and trailing whitespace.
pub open spec fn trim_ws(s: Seq<char>) -> Seq<char> {
    let a = skip_ws(s, 0);
    let b = back_ws(s, s.len() as int);
    if a < b {
        s.subrange(a, b)
    } else {
        Seq::empty()
    }
}

/// A name made safe for a file name: each reserved character becomes `_`,
/// then surrounding whitespace goes.
pub open spec fn sanitized(name: Seq<char>) -> Seq<char> {
    trim_ws(replace_reserved(name))
}

pub open spec fn no_reserved(s: Seq<char>) -> bool {
    forall|k: int| 0 <= k < s.len() ==> !is_reserved(#[trigger] s[k])
}

proof fn lemma_back_ws_bounds(s: Seq<char>, j: int)
    requires
        0 <= j <= s.len(),
    ensures
        0 <= back_ws(s, j) <= j,
        back_ws(s, j) > 0 ==> !is_ws(s[back_ws(s, j) - 1]),
    decreases j,
{
    if 0 < j && is_ws(s[j - 1]) {
        lemma_back_ws_bounds(s, j - 1);
    }
}

proof fn lemma_skip_ws_le(s: Seq<char>, i: int)
    requires
        0 <= i <= s.len(),
    ensures
        i <= skip_ws(s, i) <= s.len(),
    decreases s.len() - i,
{
    if i < s.len() && is_ws(s[i]) {
        lemma_skip_ws_le(s, i + 1);
    }
}

/// Makes `name` safe for a file name: each of `< > : " | ? * / \` becomes
/// `_`, and leading and trailing whitespace is removed.
pub fn sanitize_filename(name: &str) -> (r: String)
    ensures
        r@ == sanitized(name@),
        no_reserved(r@),
{
    let s = char_vec(name);
    let mut m: Vec<char> = Vec::new();
    let mut k: usize = 0;
    while k < s.len()
        invariant
            s@ == name@,
            0 <= k <= s@.len(),
            m@ == replace_reserved(s@.take(k as int)),
        decreases s@.len() - k,
    {
        let c = s[k];
        let out = if c == '<' || c == '>' || c == ':' || c == '"' || c == '|' || c == '?' || c
            == '*' || c == '/' || c == '\\' {
            '_'
        } else {
            c
        };
        m.push(out);
        k = k + 1;
        assert(m@ =~= replace_reserved(s@.take(k as int)));
    }
    assert(s@.take(s@.len() as int) =~= s@);
    proof {
        lemma_skip_ws_le(m@, 0);
        lemma_back_ws_bounds(m@, m@.len() as int);
    }
    let mut a: usize = 0;
    while a < m.len() && is_whitespace_char(m[a])
        invariant
            0 <= a <= m@.len(),
            skip_ws(m@, a as int) == skip_ws(m@, 0),
        decreases m@.len() - a,
    {
        a = a + 1;
    }
    let mut b: usize = m.len();
    while b > 0 && is_whitespace_char(m[b - 1])
        invariant
            0 <= b <= m@.len(),
            back_ws(m@, b as int) == back_ws(m@, m@.len() as int),
        decreases b,
    {
        b = b - 1;
    }
    if a < b {
        text_of_range(&m, a, b)
    } else {
        String::new()
    }
}

/// The two files that make up one backup.
pub struct BackupFileNames {
    pub content: String,
    pub metadata: String,
}

/// The file name stem of a backup made under `name` at `stamp`.
pub open spec fn backup_stem(name: Seq<char>, stamp: Seq<char>) -> Seq<char> {
    sanitized(name) + "_"@ + stamp
}

/// The content and metadata file names of a backup made under `name` at
/// `stamp`: `{sanitized name}_{stamp}.hosts` and the same stem with `.meta`.
pub fn backup_file_names(name: &str, stamp: &str) -> (r: BackupFileNames)
    ensures
        r.content@ == backup_stem(name@, stamp@) + ".hosts"@,
        r.metadata@ == backup_stem(name@, stamp@) + ".meta"@,
        no_reserved(stamp@) ==> no_reserved(r.content@) && no_reserved(r.metadata@),
{
    let stem = sanitize_filename(name).concat("_").concat(stamp);
    let content = stem.clone().concat(".hosts");
    let metadata = stem.concat(".meta");
    proof {
        reveal_strlit("_");
        reveal_strlit(".hosts");
        reveal_strlit(".meta");
        let safe = sanitized(name@);
        if no_reserved(stamp@) {
            assert forall|k: int| 0 <= k < content@.len() implies !is_reserved(
                #[trigger] content@[k],
            ) by {
                if k < safe.len() {
                    assert(content@[k] == safe[k]);
                } else if k < safe.len() + 1 {
                } else if k < safe.len() + 1 + stamp@.len() {
                    assert(content@[k] == stamp@[k - safe.len() - 1]);
                }
            }
            assert forall|k: int| 0 <= k < metadata@.len() implies !is_reserved(
                #[trigger] metadata@[k],
            ) by {
                if k < safe.len() {
                    assert(metadata@[k] == safe[k]);
                } else if k < safe.len() + 1 {
                } else if k < safe.len() + 1 + stamp@.len() {
                    assert(metadata@[k] == stamp@[k - safe.len() - 1]);
                }
            }
        }
    }
    BackupFileNames { content, metadata }
}

/// One metadata file found while scanning the backup directory: what it
/// records, its creation instant in seconds, and whether its content file
/// exists beside it.
#[derive(Clone, Debug)]
pub struct MetaScan {
    pub info: BackupInfo,
    pub created_secs: i64,
    pub content_present: bool,
}

/// The scans whose content file exists, in order.
pub open spec fn present(s: Seq<MetaScan>) -> Seq<MetaScan>
    decreases s.len(),
{
    if s.len() == 0 {
        Seq::empty()
    } else if s.last().content_present {
        present(s.drop_last()).push(s.last())
    } else {
        present(s.drop_last())
    }
}

/// Newest first: creation instants never increase along `s`.
pub open spec fn newest_first(s: Seq<MetaScan>) -> bool {
    forall|i: int, j: int| 0 <= i < j < s.len() ==> s[i].created_secs >= s[j].created_secs
}

/// The backups to list: exactly the scans whose content file exists, ordered
/// newest first; scans with equal instants keep their order.
pub fn collect_backups(scans: Vec<MetaScan>) -> (r: Vec<MetaScan>)
    ensures
        r@.to_multiset() == present(scans@).to_multiset(),
        newest_first(r@),
{
    broadcast use vstd::seq_lib::group_to_multiset_ensures;
    let ghost orig = scans@;
    let mut items = scans;
    let mut res: Vec<MetaScan> = Vec::new();
    while items.len() > 0
        invariant
            orig.len() >= items@.len(),
            items@ == orig.take(items@.len() as int),
            res@.to_multiset().add(present(items@).to_multiset()) == present(orig).to_multiset(),
            newest_first(res@),
        decreases items@.len(),
    {
        let ghost before = items@;
        let x = items.pop().unwrap();
        assert(before.drop_last() == items@);
        assert(items@ =~= orig.take(items@.len() as int));
        if x.content_present {
            let mut j: usize = 0;
            while j < res.len() && res[j].created_secs > x.created_secs
                invariant
                    0 <= j <= res@.len(),
                    forall|k: int| 0 <= k < j ==> res@[k].created_secs > x.created_secs,
                decreases res@.len() - j,
            {
                j = j + 1;
            }
            let ghost old_res = res@;
            res.insert(j, x);
            proof {
                vstd::seq_lib::to_multiset_insert(old_res, j as int, x);
                assert(present(before) == present(items@).push(x));
                vstd::seq_lib::to_multiset_build(present(items@), x);
                assert(present(items@).push(x).to_multiset() =~= present(
                    items@,
                ).to_multiset().insert(x));
                assert(res@.to_multiset().add(present(items@).to_multiset()) =~= old_res.to_multiset().add(
                    present(before).to_multiset(),
                ));
                assert forall|a: int, b: int| 0 <= a < b < res@.len() implies res@[a].created_secs
                    >= res@[b].created_secs by {
                    if b < j {
                    } else if a < j && b == j {
                    } else if a < j {
                        assert(res@[b] == old_res[b - 1]);
                    } else if a == j {
                        assert(res@[b] == old_res[b - 1]);
                        assert(old_res[j as int].created_secs <= x.created_secs);
                    } else {
                        assert(res@[a] == old_res[a - 1]);
                        assert(res@[b] == old_res[b - 1]);
                    }
                }
            }
        } else {
            assert(present(before) == present(items@));
        }
    }
    res
}

/// The position of the first backup named `name`, if any.
pub fn find_backup(backups: &[BackupInfo], name: &str) -> (r: Option<usize>)
    ensures
        r matches Some(i) ==> i < backups@.len() && backups@[i as int].name@ == name@ && forall|
            k: int,
        | 0 <= k < i ==> (#[trigger] backups@[k]).name@ != name@,
        r is None ==> forall|k: int| 0 <= k < backups@.len() ==> (#[trigger] backups@[k]).name@
            != name@,
{
    let wanted = String::from_str(name);
    let mut i: usize = 0;
    while i < backups.len()
        invariant
            0 <= i <= backups@.len(),
            wanted@ == name@,
            forall|k: int| 0 <= k < i ==> (#[trigger] backups@[k]).name@ != name@,
        decreases backups@.len() - i,
    {
        if backups[i].name == wanted {
            return Some(i);
        }
        i = i + 1;
    }
    None
}

/// Whether `s` ends with `.hosts`.
pub open spec fn ends_with_hosts(s: Seq<char>) -> bool {
    let n = s.len() as int;
    n >= 6 && s[n - 6] == '.' && s[n - 5] == 'h' && s[n - 4] == 'o' && s[n - 3] == 's' && s[n
        - 2] == 't' && s[n - 1] == 's'
}

/// The metadata file that sits beside a content file: `.hosts` replaced by `.meta`.
pub open spec fn metadata_path(content: Seq<char>) -> Seq<char> {
    if ends_with_hosts(content) {
        content.subrange(0, content.len() - 6) + ".meta"@
    } else {
        content + ".meta"@
    }
}

/// The metadata file path that belongs to the content file `content_path`.
pub fn metadata_path_for(content_path: &str) -> (r: String)
    ensures
        r@ == metadata_path(content_path@),
{
    let s = char_vec(content_path);
    let n = s.len();
    if n >= 6 && s[n - 6] == '.' && s[n - 5] == 'h' && s[n - 4] == 'o' && s[n - 3] == 's' && s[n
        - 2] == 't' && s[n - 1] == 's' {
        text_of_range(&s, 0, n - 6).concat(".meta")
    } else {
        text_of(&s).concat(".meta")
    }
}

/// The files to remove when deleting the backup named `name`: the content
/// file and metadata file of the first listed backup of that name, or
/// nothing when no backup has that name.
pub fn deletion_targets(backups: &[BackupInfo], name: &str) -> (r: Vec<String>)
    ensures
        (forall|k: int| 0 <= k < backups@.len() ==> (#[trigger] backups@[k]).name@ != name@)
            ==> r@.len() == 0,
        forall|i: int|
            0 <= i < backups@.len() && backups@[i].name@ == name@ && (forall|k: int|
                0 <= k < i ==> (#[trigger] backups@[k]).name@ != name@) ==> r@.len() == 2
                && r@[0]@ == backups@[i].path@ && r@[1]@ == metadata_path(backups@[i].path@),
{
    match find_backup(backups, name) {
        Some(i) => {
            let content = backups[i].path.clone();
            let metadata = metadata_path_for(backups[i].path.as_str());
            let mut targets: Vec<String> = Vec::new();
            targets.push(content);
            targets.push(metadata);
            targets
        },
        None => Vec::new(),
    }
}

} // verus!
