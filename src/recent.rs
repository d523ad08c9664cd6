use vstd::prelude::*;
use crate::error::{io_error, DocError};

verus! {

/// How many documents the recent-file list keeps.
pub const MAX_RECENT: usize = 10;

/// `l` with every entry equal to `p` taken out, the others in their order.
pub open spec fn without(l: Seq<Seq<char>>, p: Seq<char>) -> Seq<Seq<char>>
    decreases l.len(),
{
    if l.len() == 0 {
        l
    } else if l.last() == p {
        without(l.drop_last(), p)
    } else {
        without(l.drop_last(), p).push(l.last())
    }
}

/// The list after `p` is used: `p` first, then the other entries of `l` in
/// their order, cut to the first `MAX_RECENT`.
pub open spec fn with_added(l: Seq<Seq<char>>, p: Seq<char>) -> Seq<Seq<char>> {
    let r = seq![p] + without(l, p);
    if r.len() > MAX_RECENT {
        r.take(MAX_RECENT as int)
    } else {
        r
    }
}

/// A well-formed recent-file list: no entry twice, at most `MAX_RECENT`.
pub open spec fn recent_wf(l: Seq<Seq<char>>) -> bool {
    l.no_duplicates() && l.len() <= MAX_RECENT
}

/// The list that adding each of `ps` in turn to `l` leaves.
pub open spec fn with_all_added(l: Seq<Seq<char>>, ps: Seq<Seq<char>>) -> Seq<Seq<char>>
    decreases ps.len(),
{
    if ps.len() == 0 {
        l
    } else {
        with_added(with_all_added(l, ps.drop_last()), ps.last())
    }
}

/// `ps` with the last one first.
pub open spec fn newest_first(ps: Seq<Seq<char>>) -> Seq<Seq<char>>
    decreases ps.len(),
{
    if ps.len() == 0 {
        ps
    } else {
        seq![ps.last()] + newest_first(ps.drop_last())
    }
}

/// Puts `path` at the front of the recent-file list `files`, drops any
/// other occurrence of it, and keeps at most `MAX_RECENT` entries.
pub fn add_recent(files: Vec<String>, path: &str) -> (r: Vec<String>)
    ensures
        r.deep_view() == with_added(files.deep_view(), path@),
{
    let ghost l = files.deep_view();
    let mut out: Vec<String> = Vec::new();
    out.push(String::from_str(path));
    let p = String::from_str(path);
    let mut i: usize = 0;
    while i < files.len()
        invariant
            i <= files@.len(),
            l == files.deep_view(),
            p@ == path@,
            out.deep_view() == seq![path@] + without(l.take(i as int), path@),
        decreases files.len() - i,
    {
        assert(l.take(i + 1).drop_last() =~= l.take(i as int));
        if !(files[i] == p) {
            let ghost before = out.deep_view();
            out.push(files[i].clone());
            assert(out.deep_view() =~= before.push(l[i as int]));
        }
        i = i + 1;
    }
    assert(l.take(files@.len() as int) =~= l);
    if out.len() > MAX_RECENT {
        let ghost before = out.deep_view();
        out.truncate(MAX_RECENT);
        assert(out.deep_view() =~= before.take(MAX_RECENT as int));
    }
    out
}

proof fn lemma_without_subset(l: Seq<Seq<char>>, p: Seq<char>)
    ensures
        !without(l, p).contains(p),
        forall|x: Seq<char>| #[trigger] without(l, p).contains(x) ==> l.contains(x),
        l.no_duplicates() ==> without(l, p).no_duplicates(),
        without(l, p).len() <= l.len(),
    decreases l.len(),
{
    if l.len() > 0 {
        let d = l.drop_last();
        lemma_without_subset(d, p);
        assert forall|x: Seq<char>| #[trigger] d.contains(x) implies l.contains(x) by {
            let k = choose|k: int| 0 <= k < d.len() && d[k] == x;
            assert(l[k] == x);
        }
        if l.last() != p {
            let w = without(d, p);
            assert forall|x: Seq<char>| #[trigger] w.push(l.last()).contains(x) implies (x
                == l.last() || w.contains(x)) by {
                let k = choose|k: int| 0 <= k < w.len() + 1 && w.push(l.last())[k] == x;
                if k < w.len() {
                    assert(w[k] == x);
                }
            }
            assert(l.contains(l.last()));
            if l.no_duplicates() {
                assert(!d.contains(l.last())) by {
                    if d.contains(l.last()) {
                        let k = choose|k: int| 0 <= k < d.len() && d[k] == l.last();
                        assert(l[k] == l[l.len() - 1]);
                    }
                }
                assert(d.no_duplicates()) by {
                    assert forall|i: int, j: int|
                        0 <= i < d.len() && 0 <= j < d.len() && i != j implies d[i] != d[j] by {
                        assert(l[i] == d[i] && l[j] == d[j]);
                    }
                }
                assert(w.push(l.last()).no_duplicates()) by {
                    assert forall|i: int, j: int|
                        0 <= i < w.len() + 1 && 0 <= j < w.len() + 1 && i != j implies w.push(
                        l.last(),
                    )[i] != w.push(l.last())[j] by {
                        if i < w.len() && j < w.len() {
                        } else if i < w.len() {
                            assert(w.contains(w[i]));
                        } else {
                            assert(w.contains(w[j]));
                        }
                    }
                }
            }
        } else if l.no_duplicates() {
            assert(d.no_duplicates()) by {
                assert forall|i: int, j: int|
                    0 <= i < d.len() && 0 <= j < d.len() && i != j implies d[i] != d[j] by {
                    assert(l[i] == d[i] && l[j] == d[j]);
                }
            }
        }
    }
}

proof fn lemma_without_absent(l: Seq<Seq<char>>, p: Seq<char>)
    requires
        !l.contains(p),
    ensures
        without(l, p) == l,
    decreases l.len(),
{
    if l.len() > 0 {
        let d = l.drop_last();
        assert(!d.contains(p)) by {
            if d.contains(p) {
                let k = choose|k: int| 0 <= k < d.len() && d[k] == p;
                assert(l[k] == p);
            }
        }
        lemma_without_absent(d, p);
        assert(l.last() != p) by {
            assert(l[l.len() - 1] == l.last());
        }
        assert(d.push(l.last()) =~= l);
    }
}

proof fn lemma_without_once(l: Seq<Seq<char>>, p: Seq<char>)
    requires
        l.no_duplicates(),
        l.contains(p),
    ensures
        without(l, p).len() == l.len() - 1,
    decreases l.len(),
{
    let d = l.drop_last();
    assert(d.no_duplicates()) by {
        assert forall|i: int, j: int|
            0 <= i < d.len() && 0 <= j < d.len() && i != j implies d[i] != d[j] by {
            assert(l[i] == d[i] && l[j] == d[j]);
        }
    }
    if l.last() == p {
        assert(!d.contains(p)) by {
            if d.contains(p) {
                let k = choose|k: int| 0 <= k < d.len() && d[k] == p;
                assert(l[k] == l[l.len() - 1]);
            }
        }
        lemma_without_absent(d, p);
    } else {
        let k = choose|k: int| 0 <= k < l.len() && l[k] == p;
        assert(k < l.len() - 1);
        assert(d[k] == p);
        lemma_without_once(d, p);
    }
}

proof fn lemma_without_front(q: Seq<char>, x: Seq<Seq<char>>, p: Seq<char>)
    ensures
        without(seq![q] + x, p) == if q == p {
            without(x, p)
        } else {
            seq![q] + without(x, p)
        },
    decreases x.len(),
{
    if x.len() == 0 {
        let e = Seq::<Seq<char>>::empty();
        assert(seq![q] + x =~= seq![q]);
        assert(seq![q].drop_last() =~= e);
        assert(without(e, p) == e);
        assert(seq![q].last() == q);
        assert(e.push(q) =~= seq![q]);
        assert(seq![q] + e =~= seq![q]);
    } else {
        assert((seq![q] + x).drop_last() =~= seq![q] + x.drop_last());
        assert((seq![q] + x).last() == x.last());
        lemma_without_front(q, x.drop_last(), p);
        if q != p && x.last() != p {
            assert((seq![q] + without(x.drop_last(), p)).push(x.last()) =~= seq![q] + without(
                x.drop_last(),
                p,
            ).push(x.last()));
        }
    }
}

/// The list that `with_added` leaves is `p` followed by entries other than `p`.
proof fn lemma_added_shape(l: Seq<Seq<char>>, p: Seq<char>)
    ensures
        with_added(l, p).len() >= 1,
        with_added(l, p)[0] == p,
        !with_added(l, p).drop_first().contains(p),
        with_added(l, p).len() <= MAX_RECENT,
        with_added(l, p) == seq![p] + with_added(l, p).drop_first(),
{
    lemma_without_subset(l, p);
    let w = without(l, p);
    let r = with_added(l, p);
    assert(r.drop_first() =~= w.take(r.len() - 1));
    assert forall|x: Seq<char>| #[trigger] r.drop_first().contains(x) implies w.contains(x) by {
        let k = choose|k: int| 0 <= k < r.len() - 1 && r.drop_first()[k] == x;
        assert(w[k] == x);
    }
    assert(r =~= seq![p] + r.drop_first());
}

/// Adding a path that is already at the front changes nothing: adding the
/// same path twice is adding it once, and twice onto an empty list leaves
/// the list holding that path alone.
pub proof fn lemma_add_twice(l: Seq<Seq<char>>, p: Seq<char>)
    ensures
        with_added(with_added(l, p), p) == with_added(l, p),
        with_added(with_added(Seq::empty(), p), p) == seq![p],
{
    lemma_added_shape(l, p);
    let r = with_added(l, p);
    let t = r.drop_first();
    lemma_without_front(p, t, p);
    lemma_without_absent(t, p);
    assert(with_added(r, p) =~= r);
    let e = Seq::<Seq<char>>::empty();
    assert(with_added(e, p) =~= seq![p]);
    lemma_added_shape(seq![p], p);
    lemma_without_front(p, e, p);
    assert(with_added(seq![p], p) =~= seq![p]);
}

/// Adding a path that a well-formed list already holds moves it to the
/// front and keeps the list's length; the other entries keep their order.
pub proof fn lemma_readd_keeps_length(l: Seq<Seq<char>>, p: Seq<char>)
    requires
        recent_wf(l),
        l.contains(p),
    ensures
        with_added(l, p).len() == l.len(),
        with_added(l, p)[0] == p,
        with_added(l, p).drop_first() == without(l, p),
{
    lemma_without_once(l, p);
    assert((seq![p] + without(l, p)).drop_first() =~= without(l, p));
}

/// Every list that adding produces is well formed, whatever list it starts
/// from, provided that list has no entry twice.
pub proof fn lemma_added_wf(l: Seq<Seq<char>>, p: Seq<char>)
    requires
        l.no_duplicates(),
    ensures
        recent_wf(with_added(l, p)),
{
    lemma_added_shape(l, p);
    lemma_without_subset(l, p);
    let r = with_added(l, p);
    let w = without(l, p);
    assert(r.drop_first() =~= w.take(r.len() - 1));
    assert forall|i: int, j: int| 0 <= i < r.len() && 0 <= j < r.len() && i != j implies r[i]
        != r[j] by {
        if i > 0 && j > 0 {
            assert(r[i] == w[i - 1] && r[j] == w[j - 1]);
        } else if i == 0 {
            assert(r[j] == r.drop_first()[j - 1]);
            assert(r.drop_first().contains(r[j]));
        } else {
            assert(r[i] == r.drop_first()[i - 1]);
            assert(r.drop_first().contains(r[i]));
        }
    }
}

proof fn lemma_newest_first(ps: Seq<Seq<char>>)
    ensures
        newest_first(ps).len() == ps.len(),
        forall|x: Seq<char>| #[trigger] newest_first(ps).contains(x) ==> ps.contains(x),
    decreases ps.len(),
{
    if ps.len() > 0 {
        let d = ps.drop_last();
        lemma_newest_first(d);
        assert forall|x: Seq<char>| #[trigger] newest_first(ps).contains(x) implies ps.contains(
            x,
        ) by {
            let k = choose|k: int| 0 <= k < ps.len() && newest_first(ps)[k] == x;
            if k == 0 {
                assert(ps[ps.len() - 1] == x);
            } else {
                assert(newest_first(d)[k - 1] == x);
                assert(newest_first(d).contains(x));
                let m = choose|m: int| 0 <= m < d.len() && d[m] == x;
                assert(ps[m] == x);
            }
        }
    }
}

/// Adding distinct paths one after another to an empty list leaves the
/// last `MAX_RECENT` of them, most recent first; older ones are evicted.
pub proof fn lemma_add_distinct(ps: Seq<Seq<char>>)
    requires
        ps.no_duplicates(),
    ensures
        with_all_added(Seq::empty(), ps) == newest_first(ps).take(
            if ps.len() < MAX_RECENT {
                ps.len() as int
            } else {
                MAX_RECENT as int
            },
        ),
    decreases ps.len(),
{
    if ps.len() == 0 {
        assert(newest_first(ps).take(0) =~= Seq::<Seq<char>>::empty());
    } else {
        let d = ps.drop_last();
        let x = ps.last();
        assert(d.no_duplicates()) by {
            assert forall|i: int, j: int|
                0 <= i < d.len() && 0 <= j < d.len() && i != j implies d[i] != d[j] by {
                assert(ps[i] == d[i] && ps[j] == d[j]);
            }
        }
        lemma_add_distinct(d);
        lemma_newest_first(d);
        let m = if d.len() < MAX_RECENT {
            d.len() as int
        } else {
            MAX_RECENT as int
        };
        let a = newest_first(d).take(m);
        assert(!a.contains(x)) by {
            if a.contains(x) {
                let k = choose|k: int| 0 <= k < a.len() && a[k] == x;
                assert(newest_first(d)[k] == x);
                assert(newest_first(d).contains(x));
                let j = choose|j: int| 0 <= j < d.len() && d[j] == x;
                assert(ps[j] == ps[ps.len() - 1]);
            }
        }
        lemma_without_absent(a, x);
        assert(newest_first(ps) == seq![x] + newest_first(d));
        if d.len() < MAX_RECENT {
            assert(a =~= newest_first(d));
            assert(newest_first(ps).take(ps.len() as int) =~= newest_first(ps));
        } else {
            assert((seq![x] + a).take(MAX_RECENT as int) =~= newest_first(ps).take(
                MAX_RECENT as int,
            ));
        }
    }
}

#[verifier::external_type_specification]
#[verifier::external_body]
pub struct ExJsonError(serde_json::Error);

/// The list of strings that a JSON text holds, where it is a JSON array of
/// strings.
pub uninterp spec fn json_string_list(text: Seq<char>) -> Option<Seq<Seq<char>>>;

/// The indented JSON text of a list of strings.
pub uninterp spec fn pretty_json(paths: Seq<Seq<char>>) -> Seq<char>;

/// Relies on `serde_json::from_str::<Vec<String>>`: it reads `text` as a
/// JSON array of strings, and what it yields depends on the text alone.
#[verifier::external_body]
fn parse_string_list(text: &str) -> (r: Result<Vec<String>, serde_json::Error>)
    ensures
        match r {
            Ok(v) => json_string_list(text@) == Some(v.deep_view()),
            Err(_) => json_string_list(text@) is None,
        },
{
    serde_json::from_str::<Vec<String>>(text)
}

/// Relies on `serde_json::to_string_pretty` on a list of strings: the
/// indented JSON text it writes depends on the strings alone, and it cannot
/// fail, as strings always serialise and writing to memory does not fail.
/// Each string is written escaped, so `serde_json::from_str` reads the same
/// list back.
#[verifier::external_body]
fn pretty_string_list(paths: &Vec<String>) -> (r: Result<String, serde_json::Error>)
    ensures
        r is Ok,
        r matches Ok(s) ==> s@ == pretty_json(paths.deep_view()),
        r matches Ok(s) ==> json_string_list(s@) == Some(paths.deep_view()),
{
    serde_json::to_string_pretty(paths)
}

/// Relies on the `Display` impl of `serde_json::Error` for a readable cause.
#[verifier::external_body]
fn json_error_text(e: &serde_json::Error) -> (r: String) {
    e.to_string()
}

/// The recent-file list that the backing file's text stands for: none where
/// the file is absent, and none where its text is not a JSON array of
/// strings.
pub open spec fn stored_list(stored: Option<Seq<char>>) -> Seq<Seq<char>> {
    match stored {
        Some(t) => match json_string_list(t) {
            Some(l) => l,
            None => Seq::empty(),
        },
        None => Seq::empty(),
    }
}

pub open spec fn text_of(stored: Option<&str>) -> Option<Seq<char>> {
    match stored {
        Some(t) => Some(t@),
        None => None,
    }
}

/// Reads the recent-file list from the backing file's text (`None` where
/// the file is absent). A missing file or text that does not parse gives
/// an empty list, never an error.
pub fn recent_from_stored(stored: Option<&str>) -> (r: Vec<String>)
    ensures
        r.deep_view() == stored_list(text_of(stored)),
        stored is None ==> r@.len() == 0,
        (stored matches Some(t) && json_string_list(t@) is None) ==> r@.len() == 0,
{
    match stored {
        None => Vec::new(),
        Some(t) => match parse_string_list(t) {
            Ok(v) => v,
            Err(_) => Vec::new(),
        },
    }
}

/// The text to write back to the backing file after `path` is used: the
/// stored list (read as `recent_from_stored` does) with `path` added, as
/// indented JSON. A list of strings always serialises, so this succeeds,
/// and reading the text back gives the updated list.
pub fn recent_text_after_add(stored: Option<&str>, path: &str) -> (r: Result<String, DocError>)
    ensures
        r is Ok,
        r matches Ok(s) ==> stored_list(Some(s@)) == with_added(stored_list(text_of(stored)), path@),
        r matches Ok(s) ==> s@ == pretty_json(with_added(stored_list(text_of(stored)), path@)),
{
    let files = recent_from_stored(stored);
    let updated = add_recent(files, path);
    match pretty_string_list(&updated) {
        Ok(s) => Ok(s),
        Err(e) => {
            let cause = json_error_text(&e);
            Err(io_error("Failed to serialize recent files", cause.as_str()))
        },
    }
}

} // verus!
