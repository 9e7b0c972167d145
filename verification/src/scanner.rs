use vstd::prelude::*;

use crate::paths::{extension_of, path_extension};

verus! {

broadcast use vstd::seq_lib::group_to_multiset_ensures;

/// One entry of a directory listing: its file name, and whether it is a
/// regular file (following symbolic links).
#[derive(Debug, Clone)]
pub struct DirEntryInfo {
    pub file_name: String,
    pub is_file: bool,
}

/// Why a directory could not be scanned.
#[derive(Debug, Clone, Copy, PartialEq, Eq, Structural)]
pub enum ScanError {
    /// The path does not name a directory.
    NotADirectory,
}

/// ASCII lowercase of a character.
pub open spec fn ascii_lower(c: char) -> char {
    if 'A' <= c <= 'Z' {
        ((c as u32) + 32) as char
    } else {
        c
    }
}

/// ASCII lowercase of a text. (For the extensions below, which are ASCII
/// without `k`, matching the ASCII lowercase is matching the full Unicode
/// lowercase.)
pub open spec fn lowercase(s: Seq<char>) -> Seq<char> {
    s.map_values(|c: char| ascii_lower(c))
}

/// The RAW file extensions that are ingested, in lowercase.
pub open spec fn raw_extensions() -> Seq<Seq<char>> {
    seq!["cr2"@, "cr3"@, "nef"@, "arw"@, "raf"@, "dng"@, "orf"@, "rw2"@]
}

/// An extension that, lowercased, is one of the RAW extensions.
pub open spec fn is_raw_extension(ext: Seq<char>) -> bool {
    raw_extensions().contains(lowercase(ext))
}

/// An extension is a RAW extension exactly when its lowercase is `cr2`,
/// `cr3`, `nef`, `arw`, `raf`, `dng`, `orf` or `rw2`; every other extension
/// (`tif`, `jpg`, `png`, ...) is refused.
pub proof fn law_raw_extensions_are_listed(ext: Seq<char>)
    ensures
        is_raw_extension(ext) <==> (lowercase(ext) == "cr2"@ || lowercase(ext) == "cr3"@ || lowercase(ext)
            == "nef"@ || lowercase(ext) == "arw"@ || lowercase(ext) == "raf"@ || lowercase(ext) == "dng"@
            || lowercase(ext) == "orf"@ || lowercase(ext) == "rw2"@),
{
    reveal_strlit("cr2");
    reveal_strlit("cr3");
    reveal_strlit("nef");
    reveal_strlit("arw");
    reveal_strlit("raf");
    reveal_strlit("dng");
    reveal_strlit("orf");
    reveal_strlit("rw2");
    let l = lowercase(ext);
    let x = raw_extensions();
    if x.contains(l) {
        let k = choose|k: int| 0 <= k < x.len() && x[k] == l;
        assert(k == 0 || k == 1 || k == 2 || k == 3 || k == 4 || k == 5 || k == 6 || k == 7);
    }
    if l == "cr2"@ { assert(x[0] == l); }
    if l == "cr3"@ { assert(x[1] == l); }
    if l == "nef"@ { assert(x[2] == l); }
    if l == "arw"@ { assert(x[3] == l); }
    if l == "raf"@ { assert(x[4] == l); }
    if l == "dng"@ { assert(x[5] == l); }
    if l == "orf"@ { assert(x[6] == l); }
    if l == "rw2"@ { assert(x[7] == l); }
}

/// A listed entry that is a RAW file: a regular file whose extension is a
/// RAW extension.
pub open spec fn is_raw_entry(e: DirEntryInfo) -> bool {
    &&& e.is_file
    &&& path_extension(e.file_name@) matches Some(ext)
    &&& is_raw_extension(ext)
}

/// Names of the RAW files of a listing, in listing order.
pub open spec fn raw_file_names(entries: Seq<DirEntryInfo>) -> Seq<Seq<char>>
    decreases entries.len(),
{
    if entries.len() == 0 {
        seq![]
    } else {
        let rest = raw_file_names(entries.drop_last());
        if is_raw_entry(entries.last()) {
            rest.push(entries.last().file_name@)
        } else {
            rest
        }
    }
}

/// Lexicographic order of texts by character (the order of their UTF-8
/// bytes).
pub open spec fn text_le(a: Seq<char>, b: Seq<char>) -> bool
    decreases a.len(),
{
    if a.len() == 0 {
        true
    } else if b.len() == 0 {
        false
    } else if a[0] != b[0] {
        a[0] < b[0]
    } else {
        text_le(a.drop_first(), b.drop_first())
    }
}

/// Every text is ordered no later than the next one.
pub open spec fn texts_sorted(s: Seq<Seq<char>>) -> bool {
    forall|i: int| 0 <= i < s.len() - 1 ==> text_le(#[trigger] s[i], s[i + 1])
}

/// Texts held by a vector of strings.
pub open spec fn text_views(v: Seq<String>) -> Seq<Seq<char>> {
    v.map_values(|s: String| s@)
}

/// `a` is `b` or a prefix of `b`.
pub open spec fn is_prefix_of(a: Seq<char>, b: Seq<char>) -> bool {
    a.len() <= b.len() && b.take(a.len() as int) == a
}

/// `a` and `b` agree before position `i`, and differ at `i` with the
/// character of `a` the smaller.
pub open spec fn first_difference_favours(a: Seq<char>, b: Seq<char>, i: int) -> bool {
    &&& 0 <= i < a.len()
    &&& i < b.len()
    &&& a.take(i) == b.take(i)
    &&& a[i] < b[i]
}

/// Names are ordered lexicographically: `a` comes no later than `b` exactly
/// when `a` is a prefix of `b` (or equal to it), or the first position where
/// they differ holds the smaller character in `a`, whatever their lengths.
pub proof fn law_name_order_is_lexicographic(a: Seq<char>, b: Seq<char>)
    ensures
        text_le(a, b) <==> (is_prefix_of(a, b) || exists|i: int| #[trigger] first_difference_favours(a, b, i)),
    decreases a.len(),
{
    if a.len() == 0 {
        assert(b.take(0) =~= a);
    } else if b.len() == 0 {
        assert(!is_prefix_of(a, b));
    } else if a[0] != b[0] {
        assert(!is_prefix_of(a, b)) by {
            if is_prefix_of(a, b) {
                assert(b.take(a.len() as int)[0] == b[0]);
            }
        }
        if a[0] < b[0] {
            assert(a.take(0) =~= b.take(0));
            assert(first_difference_favours(a, b, 0));
        }
        if exists|i: int| #[trigger] first_difference_favours(a, b, i) {
            let i = choose|i: int| #[trigger] first_difference_favours(a, b, i);
            if i > 0 {
                assert(a.take(i)[0] == b.take(i)[0]);
            }
        }
    } else {
        let (a1, b1) = (a.drop_first(), b.drop_first());
        law_name_order_is_lexicographic(a1, b1);
        assert(is_prefix_of(a, b) <==> is_prefix_of(a1, b1)) by {
            if is_prefix_of(a, b) {
                assert(b1.take(a1.len() as int) =~= b.take(a.len() as int).drop_first());
            }
            if is_prefix_of(a1, b1) {
                assert(b.take(a.len() as int) =~= seq![b[0]] + b1.take(a1.len() as int));
                assert(a =~= seq![a[0]] + a1);
            }
        }
        if exists|i: int| #[trigger] first_difference_favours(a, b, i) {
            let i = choose|i: int| #[trigger] first_difference_favours(a, b, i);
            assert(i != 0);
            assert(a1.take(i - 1) =~= a.take(i).drop_first());
            assert(b1.take(i - 1) =~= b.take(i).drop_first());
            assert(first_difference_favours(a1, b1, i - 1));
        }
        if exists|i: int| #[trigger] first_difference_favours(a1, b1, i) {
            let i = choose|i: int| #[trigger] first_difference_favours(a1, b1, i);
            assert(a.take(i + 1) =~= seq![a[0]] + a1.take(i));
            assert(b.take(i + 1) =~= seq![b[0]] + b1.take(i));
            assert(first_difference_favours(a, b, i + 1));
        }
    }
}

proof fn lemma_text_le_total(a: Seq<char>, b: Seq<char>)
    ensures
        text_le(a, b) || text_le(b, a),
    decreases a.len(),
{
    if a.len() > 0 && b.len() > 0 {
        if a[0] == b[0] {
            lemma_text_le_total(a.drop_first(), b.drop_first());
        }
    }
}

fn text_le_exec(a: &str, b: &str) -> (r: bool)
    ensures
        r == text_le(a@, b@),
{
    let n = a.unicode_len();
    let m = b.unicode_len();
    let mut i: usize = 0;
    assert(a@.skip(0) =~= a@);
    assert(b@.skip(0) =~= b@);
    while i < n && i < m
        invariant
            i <= n,
            i <= m,
            n == a@.len(),
            m == b@.len(),
            text_le(a@, b@) == text_le(a@.skip(i as int), b@.skip(i as int)),
        decreases n - i,
    {
        let x = a.get_char(i);
        let y = b.get_char(i);
        assert(a@.skip(i as int)[0] == x);
        assert(b@.skip(i as int)[0] == y);
        if x != y {
            return x < y;
        }
        assert(a@.skip(i as int).drop_first() =~= a@.skip(i + 1));
        assert(b@.skip(i as int).drop_first() =~= b@.skip(i + 1));
        i = i + 1;
    }
    n <= m
}

fn matches_lowercase(s: &str, lower: &str) -> (r: bool)
    requires
        forall|i: int| 0 <= i < lower@.len() ==> ascii_lower(#[trigger] lower@[i]) == lower@[i],
    ensures
        r == (lowercase(s@) == lower@),
{
    let n = s.unicode_len();
    if n != lower.unicode_len() {
        assert(lowercase(s@).len() != lower@.len());
        return false;
    }
    let mut i: usize = 0;
    while i < n
        invariant
            i <= n,
            n == s@.len(),
            n == lower@.len(),
            forall|j: int| 0 <= j < i ==> ascii_lower(s@[j]) == lower@[j],
            forall|j: int| 0 <= j < lower@.len() ==> ascii_lower(#[trigger] lower@[j]) == lower@[j],
        decreases n - i,
    {
        let c = s.get_char(i);
        let t = lower.get_char(i);
        let same = c == t || ('A' <= c && c <= 'Z' && (c as u32) + 32 == (t as u32));
        assert(same == (ascii_lower(c) == t)) by {
            if 'A' <= c <= 'Z' {
                assert(((c as u32) + 32) as char as u32 == (c as u32) + 32);
                if ascii_lower(c) == t {
                    assert(t as u32 == (c as u32) + 32);
                }
                if c == t {
                    assert(ascii_lower(t) == t);
                    assert(false);
                }
            }
        }
        if !same {
            assert(lowercase(s@)[i as int] != lower@[i as int]);
            return false;
        }
        i = i + 1;
    }
    assert(lowercase(s@) =~= lower@);
    true
}

/// Whether an extension is a RAW extension (see `is_raw_extension`).
pub fn raw_extension(ext: &str) -> (r: bool)
    ensures
        r == is_raw_extension(ext@),
{
    proof {
        reveal_strlit("cr2");
        reveal_strlit("cr3");
        reveal_strlit("nef");
        reveal_strlit("arw");
        reveal_strlit("raf");
        reveal_strlit("dng");
        reveal_strlit("orf");
        reveal_strlit("rw2");
    }
    let r = matches_lowercase(ext, "cr2") || matches_lowercase(ext, "cr3") || matches_lowercase(ext, "nef")
        || matches_lowercase(ext, "arw") || matches_lowercase(ext, "raf") || matches_lowercase(ext, "dng")
        || matches_lowercase(ext, "orf") || matches_lowercase(ext, "rw2");
    assert(r == raw_extensions().contains(lowercase(ext@))) by {
        let l = lowercase(ext@);
        let x = raw_extensions();
        if x.contains(l) {
            let k = choose|k: int| 0 <= k < x.len() && x[k] == l;
            assert(k == 0 || k == 1 || k == 2 || k == 3 || k == 4 || k == 5 || k == 6 || k == 7);
        }
        if r {
            if l == "cr2"@ { assert(x[0] == l); }
            if l == "cr3"@ { assert(x[1] == l); }
            if l == "nef"@ { assert(x[2] == l); }
            if l == "arw"@ { assert(x[3] == l); }
            if l == "raf"@ { assert(x[4] == l); }
            if l == "dng"@ { assert(x[5] == l); }
            if l == "orf"@ { assert(x[6] == l); }
            if l == "rw2"@ { assert(x[7] == l); }
        }
    }
    r
}

/// Whether an extension, lowercased, is `jpg` or `jpeg`.
pub fn jpeg_extension(ext: &str) -> (r: bool)
    ensures
        r == (lowercase(ext@) == "jpg"@ || lowercase(ext@) == "jpeg"@),
{
    proof {
        reveal_strlit("jpg");
        reveal_strlit("jpeg");
    }
    matches_lowercase(ext, "jpg") || matches_lowercase(ext, "jpeg")
}

/// Whether a listed entry is a RAW file (see `is_raw_entry`).
fn raw_entry(e: &DirEntryInfo) -> (r: bool)
    ensures
        r == is_raw_entry(*e),
{
    if !e.is_file {
        return false;
    }
    match extension_of(e.file_name.as_str()) {
        Some(ext) => raw_extension(ext.as_str()),
        None => false,
    }
}

/// A path joined from a directory and a file name inside it: a `/` goes
/// between them unless the directory is empty or already ends with one.
pub open spec fn join_path(dir: Seq<char>, name: Seq<char>) -> Seq<char> {
    if dir.len() == 0 || dir.last() == '/' {
        dir + name
    } else {
        dir.push('/') + name
    }
}

/// The listing's RAW file names, sorted.
fn sorted_raw_names(entries: &[DirEntryInfo]) -> (sorted: Vec<String>)
    ensures
        texts_sorted(text_views(sorted@)),
        text_views(sorted@).to_multiset() == raw_file_names(entries@).to_multiset(),
{
    let mut sorted: Vec<String> = Vec::new();
    let mut i: usize = 0;
    while i < entries.len()
        invariant
            i <= entries@.len(),
            texts_sorted(text_views(sorted@)),
            text_views(sorted@).to_multiset() == raw_file_names(entries@.take(i as int)).to_multiset(),
        decreases entries@.len() - i,
    {
        assert(entries@.take(i + 1).drop_last() =~= entries@.take(i as int));
        let e = &entries[i];
        if raw_entry(e) {
            let name = e.file_name.clone();
            let ghost x = name@;
            let mut j: usize = sorted.len();
            while j > 0 && !text_le_exec(sorted[j - 1].as_str(), name.as_str())
                invariant
                    j <= sorted@.len(),
                    x == name@,
                    j < sorted@.len() ==> !text_le(sorted@[j as int]@, x),
                decreases j,
            {
                j = j - 1;
            }
            let ghost before = text_views(sorted@);
            proof {
                if j < sorted@.len() {
                    lemma_text_le_total(sorted@[j as int]@, x);
                }
            }
            sorted.insert(j, name);
            assert(text_views(sorted@) =~= before.insert(j as int, x));
            assert(texts_sorted(text_views(sorted@))) by {
                let t = text_views(sorted@);
                assert forall|k: int| 0 <= k < t.len() - 1 implies text_le(#[trigger] t[k], t[k + 1]) by {
                    if k < j - 1 {
                        assert(t[k] == before[k] && t[k + 1] == before[k + 1]);
                    } else if k == j - 1 {
                        assert(t[k] == before[k] && t[k + 1] == x);
                    } else if k == j {
                        assert(t[k] == x && t[k + 1] == before[k]);
                    } else {
                        assert(t[k] == before[k - 1] && t[k + 1] == before[k]);
                    }
                }
            }
            proof {
                vstd::seq_lib::lemma_multiset_commutative(before.take(j as int).push(x), before.skip(j as int));
                vstd::seq_lib::lemma_multiset_commutative(before.take(j as int), before.skip(j as int));
                assert(before.take(j as int) + before.skip(j as int) =~= before);
                assert(before.insert(j as int, x) =~= before.take(j as int).push(x) + before.skip(j as int));
                assert(before.subrange(0, j as int) =~= before.take(j as int));
                assert(before.subrange(j as int, before.len() as int) =~= before.skip(j as int));
                assert(raw_file_names(entries@.take(i + 1)) == raw_file_names(entries@.take(i as int)).push(x));
            }
        } else {
            assert(raw_file_names(entries@.take(i + 1)) == raw_file_names(entries@.take(i as int)));
        }
        i = i + 1;
    }
    assert(entries@.take(i as int) =~= entries@);
    sorted
}

/// The RAW files of directory `dir`, given whether it is a directory and
/// its listing: each as `dir` joined with its name, sorted by name.
pub fn scan_directory(dir: &str, is_dir: bool, entries: &[DirEntryInfo]) -> (r: Result<Vec<String>, ScanError>)
    ensures
        !is_dir ==> r == Err::<Vec<String>, ScanError>(ScanError::NotADirectory),
        is_dir ==> (r matches Ok(paths) && exists|names: Seq<Seq<char>>|
            #![trigger texts_sorted(names)]
            {
                &&& texts_sorted(names)
                &&& names.to_multiset() == raw_file_names(entries@).to_multiset()
                &&& text_views(paths@) == names.map_values(|n: Seq<char>| join_path(dir@, n))
            }),
{
    if !is_dir {
        return Err(ScanError::NotADirectory);
    }
    let names = sorted_raw_names(entries);
    let mut paths: Vec<String> = Vec::new();
    let ghost views = text_views(names@);
    let mut k: usize = 0;
    while k < names.len()
        invariant
            k <= names@.len(),
            views == text_views(names@),
            text_views(paths@) == views.take(k as int).map_values(|n: Seq<char>| join_path(dir@, n)),
        decreases names@.len() - k,
    {
        proof { reveal_strlit("/"); }
        let mut p = String::from_str(dir);
        let n = dir.unicode_len();
        if n != 0 && dir.get_char(n - 1) != '/' {
            p.append("/");
        }
        p.append(names[k].as_str());
        proof {
            assert(dir@.len() > 0 ==> dir@.last() == dir@[n - 1]);
            assert(dir@.push('/') =~= dir@ + "/"@);
        }
        assert(views[k as int] == names@[k as int]@);
        assert(p@ == join_path(dir@, views[k as int]));
        let ghost old_views = text_views(paths@);
        paths.push(p);
        assert(text_views(paths@) =~= old_views.push(join_path(dir@, views[k as int])));
        assert(views.take(k + 1) =~= views.take(k as int).push(views[k as int]));
        assert(text_views(paths@) =~= views.take(k + 1).map_values(|n: Seq<char>| join_path(dir@, n)));
        k = k + 1;
    }
    assert(views.take(k as int) =~= views);
    Ok(paths)
}

} // verus!
