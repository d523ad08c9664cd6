use vstd::prelude::*;

verus! {

/// Whether `c` separates path components: `/` everywhere, and `\` too
/// where Windows conventions apply.
pub open spec fn is_separator(c: char, windows: bool) -> bool {
    c == '/' || (windows && c == '\\')
}

/// The separator that joining inserts.
pub open spec fn main_separator(windows: bool) -> char {
    if windows {
        '\\'
    } else {
        '/'
    }
}

/// `rel` appended to `base`, with one separator between them unless `base`
/// is empty or already ends with one.
pub open spec fn joined(base: Seq<char>, rel: Seq<char>, windows: bool) -> Seq<char> {
    if base.len() > 0 && !is_separator(base.last(), windows) {
        base + seq![main_separator(windows)] + rel
    } else {
        base + rel
    }
}

/// What a path denotes when read relative to the working directory `cwd`;
/// `absolute` says whether the path is absolute on the platform at hand.
pub open spec fn resolved(cwd: Seq<char>, p: Seq<char>, absolute: bool, windows: bool) -> Seq<
    char,
> {
    if absolute {
        p
    } else {
        joined(cwd, p, windows)
    }
}

/// Turns `path` into the path it denotes from the working directory `cwd`:
/// an absolute path (`absolute`, as the platform's path rules judge it) is
/// kept as it is, a relative one is joined onto `cwd`. `windows` selects
/// Windows separators.
pub fn resolve_path(cwd: &str, path: &str, absolute: bool, windows: bool) -> (r: String)
    ensures
        r@ == resolved(cwd@, path@, absolute, windows),
{
    if absolute {
        return String::from_str(path);
    }
    let mut r = String::from_str(cwd);
    let m = cwd.unicode_len();
    if m > 0 {
        let last = cwd.get_char(m - 1);
        if !(last == '/' || (windows && last == '\\')) {
            if windows {
                let sep = "\\";
                proof {
                    reveal_strlit("\\");
                }
                r.append(sep);
                assert(sep@ =~= seq![main_separator(windows)]);
            } else {
                let sep = "/";
                proof {
                    reveal_strlit("/");
                }
                r.append(sep);
                assert(sep@ =~= seq![main_separator(windows)]);
            }
        }
    }
    r.append(path);
    r
}

/// Resolution keeps an absolute path, and joins a relative one onto the
/// working directory: the result then starts with the working directory and
/// ends with the path.
pub proof fn lemma_resolution(cwd: Seq<char>, p: Seq<char>, absolute: bool, windows: bool)
    ensures
        absolute ==> resolved(cwd, p, absolute, windows) == p,
        !absolute ==> resolved(cwd, p, absolute, windows) == joined(cwd, p, windows),
        !absolute ==> resolved(cwd, p, absolute, windows).subrange(0, cwd.len() as int) == cwd,
        !absolute ==> ({
            let r = resolved(cwd, p, absolute, windows);
            r.subrange(r.len() - p.len(), r.len() as int) == p
        }),
{
    if !absolute {
        let r = joined(cwd, p, windows);
        assert(r.subrange(0, cwd.len() as int) =~= cwd);
        assert(r.subrange(r.len() - p.len(), r.len() as int) =~= p);
    }
}

/// Whether `p` ends in a separator or in a `.` component, neither of
/// which names anything.
pub open spec fn ends_in_filler(p: Seq<char>, windows: bool) -> bool {
    (p.len() > 0 && is_separator(p.last(), windows)) || (p.len() >= 2 && p.last() == '.'
        && is_separator(p[p.len() - 2], windows))
}

/// Length of `p` once trailing separators and `.` components are left out.
pub open spec fn trimmed_len(p: Seq<char>, windows: bool) -> nat
    decreases p.len(),
{
    if ends_in_filler(p, windows) {
        trimmed_len(p.drop_last(), windows)
    } else {
        p.len()
    }
}

/// Index of the last occurrence of `c` in `s`, or -1 where there is none.
pub open spec fn last_index_of(s: Seq<char>, c: char) -> int
    decreases s.len(),
{
    if s.len() == 0 {
        -1
    } else if s.last() == c {
        s.len() - 1
    } else {
        last_index_of(s.drop_last(), c)
    }
}

proof fn lemma_trimmed_len_bound(p: Seq<char>, windows: bool)
    ensures
        trimmed_len(p, windows) <= p.len(),
    decreases p.len(),
{
    if ends_in_filler(p, windows) {
        lemma_trimmed_len_bound(p.drop_last(), windows);
    }
}

proof fn lemma_last_index_bound(s: Seq<char>, c: char)
    ensures
        -1 <= last_index_of(s, c) < s.len(),
        last_index_of(s, c) >= 0 ==> s[last_index_of(s, c)] == c,
    decreases s.len(),
{
    if s.len() > 0 && s.last() != c {
        lemma_last_index_bound(s.drop_last(), c);
    }
}

/// Index of the last separator in `s`, or -1 where there is none.
pub open spec fn last_separator(s: Seq<char>, windows: bool) -> int {
    let a = last_index_of(s, '/');
    let b = last_index_of(s, '\\');
    if windows && b > a {
        b
    } else {
        a
    }
}

/// The last component of `p`: what follows the last separator once
/// trailing separators and `.` components are left aside.
pub open spec fn file_name(p: Seq<char>, windows: bool) -> Seq<char> {
    let t = p.subrange(0, trimmed_len(p, windows) as int);
    t.subrange(last_separator(t, windows) + 1, t.len() as int)
}

/// The extension of a file name: what follows its last `.`, where that dot
/// is not the name's first character; `..` has none.
pub open spec fn extension(name: Seq<char>) -> Option<Seq<char>> {
    let d = last_index_of(name, '.');
    if d <= 0 || name == seq!['.', '.'] {
        None
    } else {
        Some(name.subrange(d + 1, name.len() as int))
    }
}

/// The code of `c` once ASCII upper-case letters are mapped to lower case.
pub open spec fn ascii_lower_code(c: char) -> u32 {
    if 65 <= c as u32 <= 90 {
        (c as u32 + 32) as u32
    } else {
        c as u32
    }
}

/// `s` equals the lower-case word `word` once ASCII letters of `s` are
/// folded to lower case.
pub open spec fn ascii_lower_eq(s: Seq<char>, word: Seq<char>) -> bool {
    s.len() == word.len() && forall|i: int|
        0 <= i < s.len() ==> #[trigger] ascii_lower_code(s[i]) == (word[i] as u32)
}

/// A Markdown document is recognised by its extension, `md` or `markdown`,
/// compared without regard to ASCII case.
pub open spec fn is_markdown_path(p: Seq<char>, windows: bool) -> bool {
    match extension(file_name(p, windows)) {
        Some(e) => ascii_lower_eq(e, "md"@) || ascii_lower_eq(e, "markdown"@),
        None => false,
    }
}

fn is_separator_char(c: char, windows: bool) -> (r: bool)
    ensures
        r == is_separator(c, windows),
{
    c == '/' || (windows && c == '\\')
}

/// Index where the trailing separators and `.` components of `p` begin.
fn trailing_start(p: &str, windows: bool) -> (r: usize)
    ensures
        r == trimmed_len(p@, windows),
        r <= p@.len(),
{
    let mut i = p.unicode_len();
    assert(p@.subrange(0, i as int) =~= p@);
    while i > 0 && (is_separator_char(p.get_char(i - 1), windows) || (i >= 2 && p.get_char(
        i - 1,
    ) == '.' && is_separator_char(p.get_char(i - 2), windows)))
        invariant
            i <= p@.len(),
            trimmed_len(p@.subrange(0, i as int), windows) == trimmed_len(p@, windows),
        decreases i,
    {
        let ghost q = p@.subrange(0, i as int);
        assert(q.drop_last() =~= p@.subrange(0, i - 1));
        assert(ends_in_filler(q, windows));
        i = i - 1;
    }
    proof {
        lemma_trimmed_len_bound(p@, windows);
    }
    i
}

/// Index, within `p[from..end]`, of the last `c` there, or -1.
fn last_index_in(p: &str, from: usize, end: usize, c: char) -> (r: i64)
    requires
        from <= end <= p@.len(),
        p@.len() < i64::MAX,
    ensures
        r == last_index_of(p@.subrange(from as int, end as int), c),
        -1 <= r < end - from,
{
    proof {
        lemma_last_index_bound(p@.subrange(from as int, end as int), c);
    }
    let mut i = end;
    while i > from
        invariant
            from <= i <= end <= p@.len() < i64::MAX,
            last_index_of(p@.subrange(from as int, i as int), c) == last_index_of(
                p@.subrange(from as int, end as int),
                c,
            ),
        decreases i,
    {
        if p.get_char(i - 1) == c {
            assert(p@.subrange(from as int, i as int).last() == p@[i - 1]);
            return (i - 1 - from) as i64;
        }
        assert(p@.subrange(from as int, i as int).drop_last() =~= p@.subrange(
            from as int,
            i - 1,
        ));
        i = i - 1;
    }
    -1
}

/// Whether the characters of `p` in `[from, to)` equal the lower-case
/// `word` once folded to ASCII lower case.
fn lower_eq_at(p: &str, from: usize, to: usize, word: &str) -> (r: bool)
    requires
        from <= to <= p@.len(),
    ensures
        r == ascii_lower_eq(p@.subrange(from as int, to as int), word@),
{
    let n = word.unicode_len();
    if to - from != n {
        return false;
    }
    let ghost s = p@.subrange(from as int, to as int);
    let mut k: usize = 0;
    while k < n
        invariant
            k <= n == word@.len() == to - from,
            from <= to <= p@.len(),
            s == p@.subrange(from as int, to as int),
            forall|j: int| 0 <= j < k ==> #[trigger] ascii_lower_code(s[j]) == (word@[j] as u32),
        decreases n - k,
    {
        let c = p.get_char(from + k) as u32;
        let lc: u32 = if 65 <= c && c <= 90 {
            c + 32
        } else {
            c
        };
        assert(s[k as int] == p@[from + k]);
        if lc != word.get_char(k) as u32 {
            assert(ascii_lower_code(s[k as int]) != (word@[k as int] as u32));
            return false;
        }
        k = k + 1;
    }
    true
}

/// Whether `path` names a Markdown document by its extension (`md` or
/// `markdown`, in any ASCII case). `windows` makes `\` a separator too.
pub fn is_markdown_file(path: &str, windows: bool) -> (r: bool)
    requires
        path@.len() < i64::MAX,
    ensures
        r == is_markdown_path(path@, windows),
{
    let end = trailing_start(path, windows);
    let ghost t = path@.subrange(0, end as int);
    let forward = last_index_in(path, 0, end, '/');
    let backward = last_index_in(path, 0, end, '\\');
    let slash = if windows && backward > forward {
        backward
    } else {
        forward
    };
    assert(t == path@.subrange(0, end as int));
    let start = (slash + 1) as usize;
    let ghost name = t.subrange(start as int, end as int);
    assert(name =~= path@.subrange(start as int, end as int));
    assert(t == path@.subrange(0, end as int));
    let dot = last_index_in(path, start, end, '.');
    if dot <= 0 {
        return false;
    }
    if end - start == 2 && path.get_char(start) == '.' && path.get_char(start + 1) == '.' {
        assert(name =~= seq!['.', '.']);
        return false;
    }
    assert(name != seq!['.', '.']);
    let from = start + dot as usize + 1;
    assert(name.subrange(dot + 1, name.len() as int) =~= path@.subrange(from as int, end as int));
    lower_eq_at(path, from, end, "md") || lower_eq_at(path, from, end, "markdown")
}

/// Argument `i` names a startup document: it is not the program name, the
/// caller found a regular file there, and it carries a Markdown extension.
pub open spec fn opens_at_startup(
    args: Seq<Seq<char>>,
    is_file: Seq<bool>,
    windows: bool,
    i: int,
) -> bool {
    1 <= i < args.len() && i < is_file.len() && is_file[i] && is_markdown_path(args[i], windows)
}

/// Picks the document to open at startup from the command-line arguments
/// `args` (program name first): the first later argument that names a
/// regular file (`is_file[i]`, as found on disk by the caller) with a
/// Markdown extension, or none. `windows` selects Windows separators.
pub fn startup_markdown_path(args: &Vec<String>, is_file: &Vec<bool>, windows: bool) -> (r:
    Option<String>)
    requires
        forall|i: int| 0 <= i < args@.len() ==> (#[trigger] args@[i])@.len() < i64::MAX,
    ensures
        r is None <==> forall|i: int| !opens_at_startup(args.deep_view(), is_file@, windows, i),
        r matches Some(s) ==> exists|i: int|
            opens_at_startup(args.deep_view(), is_file@, windows, i) && s@ == args@[i]@ && forall|j: int|
                j < i ==> !opens_at_startup(args.deep_view(), is_file@, windows, j),
{
    let ghost a = args.deep_view();
    let mut i: usize = 1;
    while i < args.len()
        invariant
            1 <= i,
            a == args.deep_view(),
            forall|k: int| 0 <= k < args@.len() ==> (#[trigger] args@[k])@.len() < i64::MAX,
            forall|j: int| j < i ==> !opens_at_startup(a, is_file@, windows, j),
        decreases args.len() - i,
    {
        assert(a[i as int] == args@[i as int]@);
        if i < is_file.len() && is_file[i] && is_markdown_file(args[i].as_str(), windows) {
            let r = args[i].clone();
            assert(opens_at_startup(a, is_file@, windows, i as int));
            return Some(r);
        }
        i = i + 1;
    }
    None
}

} // verus!
