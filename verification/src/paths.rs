use vstd::prelude::*;

verus! {

/// End of the part of `p[..k]` that precedes its last `/` plus one: the start
/// of the path segment that ends at `k`.
pub open spec fn segment_start(p: Seq<char>, k: int) -> int
    decreases k,
{
    if k <= 0 {
        0
    } else if p[k - 1] == '/' {
        k
    } else {
        segment_start(p, k - 1)
    }
}

/// Bounds `[start, end)` of the file name of the path `p[..k]`: its last
/// component, where that is a normal one. Empty and `.` components are
/// skipped; a last component `..`, or none at all, gives no file name.
pub open spec fn file_name_span(p: Seq<char>, k: int) -> Option<(int, int)>
    decreases k,
{
    if k <= 0 {
        None
    } else if p[k - 1] == '/' {
        file_name_span(p, k - 1)
    } else {
        let s = segment_start(p, k);
        let seg = p.subrange(s, k);
        if seg == seq!['.'] {
            if s <= 0 {
                None
            } else {
                proof {
                    lemma_segment_start_le(p, k);
                }
                file_name_span(p, s - 1)
            }
        } else if seg == seq!['.', '.'] {
            None
        } else {
            Some((s, k))
        }
    }
}

/// Index of the last `.` in `p[s..k]`, or `s - 1` where there is none.
pub open spec fn last_dot(p: Seq<char>, s: int, k: int) -> int
    decreases k - s,
{
    if k <= s {
        s - 1
    } else if p[k - 1] == '.' {
        k - 1
    } else {
        last_dot(p, s, k - 1)
    }
}

/// The extension of a path: what follows the last `.` of its file name,
/// unless that `.` begins the name.
pub open spec fn path_extension(p: Seq<char>) -> Option<Seq<char>> {
    match file_name_span(p, p.len() as int) {
        None => None,
        Some((s, e)) => {
            let d = last_dot(p, s, e);
            if d <= s {
                None
            } else {
                Some(p.subrange(d + 1, e))
            }
        },
    }
}

/// The path with its extension replaced by `ext`: cut after the file stem
/// (anything after it, trailing separators included, goes) and `.ext`
/// appended. A path without a file name stays as it is.
pub open spec fn with_extension(p: Seq<char>, ext: Seq<char>) -> Seq<char> {
    match file_name_span(p, p.len() as int) {
        None => p,
        Some((s, e)) => {
            let d = last_dot(p, s, e);
            let cut = if d <= s { e } else { d };
            p.subrange(0, cut) + seq!['.'] + ext
        },
    }
}

/// A segment starts no later than where it ends.
pub proof fn lemma_segment_start_le(p: Seq<char>, k: int)
    ensures
        k >= 0 ==> segment_start(p, k) <= k,
    decreases k,
{
    if k > 0 && p[k - 1] != '/' {
        lemma_segment_start_le(p, k - 1);
    }
}

proof fn lemma_segment_start_bounds(p: Seq<char>, k: int)
    requires
        0 <= k <= p.len(),
    ensures
        0 <= segment_start(p, k) <= k,
        forall|i: int| segment_start(p, k) <= i < k ==> p[i] != '/',
        segment_start(p, k) > 0 ==> p[segment_start(p, k) - 1] == '/',
    decreases k,
{
    if k > 0 && p[k - 1] != '/' {
        lemma_segment_start_bounds(p, k - 1);
    }
}

proof fn lemma_last_dot_bounds(p: Seq<char>, s: int, k: int)
    requires
        0 <= s <= k <= p.len(),
    ensures
        s - 1 <= last_dot(p, s, k) < k,
        last_dot(p, s, k) >= s ==> p[last_dot(p, s, k)] == '.',
        forall|i: int| last_dot(p, s, k) < i < k ==> p[i] != '.',
    decreases k - s,
{
    if k > s && p[k - 1] != '.' {
        lemma_last_dot_bounds(p, s, k - 1);
    }
}

proof fn lemma_file_name_span_bounds(p: Seq<char>, k: int)
    requires
        0 <= k <= p.len(),
    ensures
        file_name_span(p, k) matches Some((s, e)) ==> 0 <= s < e <= k,
    decreases k,
{
    if k > 0 {
        if p[k - 1] == '/' {
            lemma_file_name_span_bounds(p, k - 1);
        } else {
            lemma_segment_start_bounds(p, k);
            let s = segment_start(p, k);
            if p.subrange(s, k) == seq!['.'] && s > 0 {
                lemma_file_name_span_bounds(p, s - 1);
            }
        }
    }
}

fn segment_start_of(p: &str, k: usize) -> (r: usize)
    requires
        k <= p@.len(),
    ensures
        r == segment_start(p@, k as int),
{
    let mut j: usize = k;
    while j > 0 && p.get_char(j - 1) != '/'
        invariant
            j <= k,
            segment_start(p@, j as int) == segment_start(p@, k as int),
            k <= p@.len(),
        decreases j,
    {
        j = j - 1;
    }
    j
}

fn is_dot_segment(p: &str, s: usize, e: usize, dots: usize) -> (r: bool)
    requires
        s <= e <= p@.len(),
        dots == 1 || dots == 2,
    ensures
        r == (p@.subrange(s as int, e as int) == if dots == 1 { seq!['.'] } else { seq!['.', '.'] }),
{
    if e - s != dots {
        assert(p@.subrange(s as int, e as int).len() != dots);
        return false;
    }
    let ghost sub = p@.subrange(s as int, e as int);
    let first = p.get_char(s);
    assert(sub[0] == first);
    if dots == 1 {
        if first == '.' {
            assert(sub =~= seq!['.']);
            true
        } else {
            assert(sub != seq!['.']) by {
                if sub == seq!['.'] {
                    assert(sub[0] == '.');
                }
            }
            false
        }
    } else {
        let second = p.get_char(s + 1);
        assert(sub[1] == second);
        if first == '.' && second == '.' {
            assert(sub =~= seq!['.', '.']);
            true
        } else {
            assert(sub != seq!['.', '.']) by {
                if sub == seq!['.', '.'] {
                    assert(sub[0] == '.' && sub[1] == '.');
                }
            }
            false
        }
    }
}

proof fn lemma_file_name_span_segment(p: Seq<char>, k: int)
    requires
        0 <= k <= p.len(),
    ensures
        file_name_span(p, k) matches Some((s, e)) ==> {
            &&& forall|i: int| s <= i < e ==> p[i] != '/'
            &&& s == 0 || p[s - 1] == '/'
        },
    decreases k,
{
    if k > 0 {
        if p[k - 1] == '/' {
            lemma_file_name_span_segment(p, k - 1);
        } else {
            lemma_segment_start_bounds(p, k);
            let s = segment_start(p, k);
            if p.subrange(s, k) == seq!['.'] && s > 0 {
                lemma_file_name_span_segment(p, s - 1);
            }
        }
    }
}

proof fn lemma_segment_start_is(q: Seq<char>, s: int, k: int)
    requires
        0 <= s <= k <= q.len(),
        forall|i: int| s <= i < k ==> q[i] != '/',
        s == 0 || q[s - 1] == '/',
    ensures
        segment_start(q, k) == s,
    decreases k,
{
    if k > s {
        lemma_segment_start_is(q, s, k - 1);
    }
}

proof fn lemma_last_dot_is(q: Seq<char>, s: int, c: int, k: int)
    requires
        0 <= s <= c < k <= q.len(),
        q[c] == '.',
        forall|i: int| c < i < k ==> q[i] != '.',
    ensures
        last_dot(q, s, k) == c,
    decreases k - c,
{
    if k > c + 1 {
        lemma_last_dot_is(q, s, c, k - 1);
    }
}

/// Where the file stem of a path ends: at the last `.` of its file name,
/// unless that `.` begins the name, else at the name's end.
pub open spec fn file_stem_end(p: Seq<char>) -> int {
    match file_name_span(p, p.len() as int) {
        Some((s, e)) => {
            let d = last_dot(p, s, e);
            if d <= s {
                e
            } else {
                d
            }
        },
        None => p.len() as int,
    }
}

/// The file stem of a path: its file name without the extension; empty
/// where it has no file name.
pub open spec fn file_stem_text(p: Seq<char>) -> Seq<char> {
    match file_name_span(p, p.len() as int) {
        Some((s, e)) => p.subrange(s, file_stem_end(p)),
        None => Seq::empty(),
    }
}

/// What precedes the file name of a path (its directory, separators
/// included); the whole path where it has no file name.
pub open spec fn directory_prefix(p: Seq<char>) -> Seq<char> {
    match file_name_span(p, p.len() as int) {
        Some((s, e)) => p.subrange(0, s),
        None => p,
    }
}

/// Replacing the extension of a path that has a file name, with a nonempty
/// extension free of `/` and `.`, gives a path whose extension is exactly
/// that one, in the same directory and with the same file stem; replacing
/// it again with the same extension changes nothing.
pub proof fn law_extension_replaced(p: Seq<char>, ext: Seq<char>)
    requires
        file_name_span(p, p.len() as int) is Some,
        ext.len() > 0,
        forall|i: int| 0 <= i < ext.len() ==> #[trigger] ext[i] != '/' && ext[i] != '.',
    ensures
        path_extension(with_extension(p, ext)) == Some(ext),
        directory_prefix(with_extension(p, ext)) == directory_prefix(p),
        file_stem_text(with_extension(p, ext)) == file_stem_text(p),
        with_extension(with_extension(p, ext), ext) == with_extension(p, ext),
{
    let (s, e) = file_name_span(p, p.len() as int).unwrap();
    lemma_file_name_span_bounds(p, p.len() as int);
    lemma_file_name_span_segment(p, p.len() as int);
    lemma_last_dot_bounds(p, s, e);
    let d = last_dot(p, s, e);
    let cut = if d <= s {
        e
    } else {
        d
    };
    let q = with_extension(p, ext);
    let n = q.len() as int;
    assert(q == p.subrange(0, cut) + seq!['.'] + ext);
    assert(q[n - 1] == ext[ext.len() - 1]);
    assert forall|i: int| s <= i < n implies q[i] != '/' by {
        if i < cut {
            assert(q[i] == p[i]);
        } else if i > cut {
            assert(q[i] == ext[i - cut - 1]);
        }
    }
    if s > 0 {
        assert(q[s - 1] == p[s - 1]);
    }
    lemma_segment_start_is(q, s, n);
    assert(q.subrange(s, n).len() >= 2);
    assert(q.subrange(s, n) != seq!['.']);
    assert(q.subrange(s, n)[n - s - 1] != '.');
    assert(q.subrange(s, n) != seq!['.', '.']);
    assert(file_name_span(q, n) == Some((s, n)));
    assert forall|i: int| cut < i < n implies q[i] != '.' by {
        assert(q[i] == ext[i - cut - 1]);
    }
    lemma_last_dot_is(q, s, cut, n);
    assert(q.subrange(cut + 1, n) =~= ext);
    assert(q.subrange(0, s) =~= p.subrange(0, s));
    assert(q.subrange(s, cut) =~= p.subrange(s, cut));
    assert(q.subrange(0, cut) + seq!['.'] + ext =~= q);
}

/// Bounds of the file name of a path (see `file_name_span`).
pub fn file_name_bounds(p: &str) -> (r: Option<(usize, usize)>)
    ensures
        match r {
            Some((s, e)) => file_name_span(p@, p@.len() as int) == Some((s as int, e as int)) && s < e
                <= p@.len(),
            None => file_name_span(p@, p@.len() as int) is None,
        },
{
    let n = p.unicode_len();
    let mut k: usize = n;
    loop
        invariant
            k <= n,
            n == p@.len(),
            file_name_span(p@, k as int) == file_name_span(p@, n as int),
        decreases k,
    {
        if k == 0 {
            return None;
        }
        if p.get_char(k - 1) == '/' {
            k = k - 1;
        } else {
            let s = segment_start_of(p, k);
            proof {
                lemma_segment_start_bounds(p@, k as int);
            }
            if is_dot_segment(p, s, k, 1) {
                if s == 0 {
                    return None;
                }
                k = s - 1;
            } else if is_dot_segment(p, s, k, 2) {
                return None;
            } else {
                return Some((s, k));
            }
        }
    }
}

fn last_dot_in(p: &str, s: usize, e: usize) -> (r: Option<usize>)
    requires
        s <= e <= p@.len(),
    ensures
        match r {
            Some(d) => last_dot(p@, s as int, e as int) == d && s <= d < e,
            None => last_dot(p@, s as int, e as int) == s - 1,
        },
{
    let mut k: usize = e;
    while k > s && p.get_char(k - 1) != '.'
        invariant
            s <= k <= e,
            e <= p@.len(),
            last_dot(p@, s as int, k as int) == last_dot(p@, s as int, e as int),
        decreases k,
    {
        k = k - 1;
    }
    if k > s {
        Some(k - 1)
    } else {
        None
    }
}

/// The extension of a path (see `path_extension`).
pub fn extension_of(p: &str) -> (r: Option<String>)
    ensures
        match r {
            Some(x) => path_extension(p@) == Some(x@),
            None => path_extension(p@) is None,
        },
{
    match file_name_bounds(p) {
        None => None,
        Some((s, e)) => match last_dot_in(p, s, e) {
            Some(d) => {
                if d == s {
                    None
                } else {
                    Some(String::from_str(p.substring_char(d + 1, e)))
                }
            },
            None => None,
        },
    }
}

/// The file name of a path, or the empty text where it has none.
pub open spec fn file_name_text(p: Seq<char>) -> Seq<char> {
    match file_name_span(p, p.len() as int) {
        Some((s, e)) => p.subrange(s, e),
        None => Seq::<char>::empty(),
    }
}

/// The file name of a path (see `file_name_text`).
pub fn file_name_of(p: &str) -> (r: String)
    ensures
        r@ == file_name_text(p@),
{
    match file_name_bounds(p) {
        Some((s, e)) => String::from_str(p.substring_char(s, e)),
        None => String::new(),
    }
}

/// The path with its extension replaced (see `with_extension`).
pub fn replace_extension(p: &str, ext: &str) -> (r: String)
    ensures
        r@ == with_extension(p@, ext@),
{
    match file_name_bounds(p) {
        None => String::from_str(p),
        Some((s, e)) => {
            let cut = match last_dot_in(p, s, e) {
                Some(d) => if d == s { e } else { d },
                None => e,
            };
            let mut out = String::from_str(p.substring_char(0, cut));
            out.append(".");
            out.append(ext);
            proof {
                reveal_strlit(".");
            }
            assert(out@ =~= p@.subrange(0, cut as int) + seq!['.'] + ext@);
            out
        },
    }
}

} // verus!
