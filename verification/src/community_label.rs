//! Heuristic community naming: short human-readable labels derived from member
//! packages, paths and symbol names.

use vstd::prelude::*;
use crate::cfg::{last_index_of, last_index_of_exec};
use crate::text::{
    find_from, find_sub, ascii_lower, ascii_lower_of, chars_eq, chars_of, decimal, decimal_chars, last_piece, last_piece_of,
    lemma_split_by_nonempty, push_all, replace_char, replace_char_of, split_by, split_chars, string_from_chars,
    utf8_len, utf8_len_of, views,
};

verus! {

/// Occurrences of `s` among `items`, counting only items of at least `min_bytes` bytes.
pub open spec fn count_occ(items: Seq<Seq<char>>, min_bytes: int, s: Seq<char>) -> nat
    decreases items.len(),
{
    if items.len() == 0 {
        0
    } else {
        count_occ(items.drop_last(), min_bytes, s) + (if items.last() == s && utf8_len(s) >= min_bytes { 1nat } else { 0nat })
    }
}

/// Item `i` is long enough to be counted.
pub open spec fn eligible(items: Seq<Seq<char>>, min_bytes: int, i: int) -> bool {
    utf8_len(items[i]) >= min_bytes
}

/// `k` is the first counted item whose number of occurrences is maximal.
pub open spec fn first_max(items: Seq<Seq<char>>, min_bytes: int, k: int) -> bool {
    &&& 0 <= k < items.len()
    &&& eligible(items, min_bytes, k)
    &&& forall|i: int| 0 <= i < items.len() && #[trigger] eligible(items, min_bytes, i) ==> count_occ(items, min_bytes, items[i]) <= count_occ(items, min_bytes, items[k])
    &&& forall|i: int| 0 <= i < k && #[trigger] eligible(items, min_bytes, i) ==> count_occ(items, min_bytes, items[i]) < count_occ(items, min_bytes, items[k])
}

/// Index of the most frequent counted item (the first such), kept when it occurs in at
/// least a third of `denom`.
pub open spec fn majority_index(items: Seq<Seq<char>>, min_bytes: int, denom: int) -> Option<int> {
    if exists|k: int| first_max(items, min_bytes, k) {
        let k = choose|k: int| first_max(items, min_bytes, k);
        if count_occ(items, min_bytes, items[k]) * 3 >= denom {
            Some(k)
        } else {
            None
        }
    } else {
        None
    }
}

/// The majority item itself.
pub open spec fn majority_text(items: Seq<Seq<char>>, min_bytes: int, denom: int) -> Option<Seq<char>> {
    match majority_index(items, min_bytes, denom) {
        Some(k) => Some(items[k]),
        None => None,
    }
}

proof fn lemma_first_max_unique(items: Seq<Seq<char>>, min_bytes: int, a: int, b: int)
    requires
        first_max(items, min_bytes, a),
        first_max(items, min_bytes, b),
    ensures
        a == b,
{
    if a < b {
        assert(eligible(items, min_bytes, a));
    } else if b < a {
        assert(eligible(items, min_bytes, b));
    }
}

fn count_occurrences(items: &Vec<Vec<char>>, min_bytes: usize, s: &[char]) -> (r: usize)
    ensures
        r == count_occ(views(items@), min_bytes as int, s@),
{
    let ghost v = views(items@);
    let long_enough = utf8_len_of(s) >= min_bytes;
    let mut r: usize = 0;
    let mut j: usize = 0;
    while j < items.len()
        invariant
            v == views(items@),
            j <= items@.len(),
            r <= j,
            long_enough == (utf8_len(s@) >= min_bytes),
            r == count_occ(v.take(j as int), min_bytes as int, s@),
        decreases items.len() - j,
    {
        proof {
            assert(v.take(j as int + 1).drop_last() =~= v.take(j as int));
            assert(v.take(j as int + 1).last() == items@[j as int]@);
        }
        if long_enough && chars_eq(items[j].as_slice(), s) {
            r = r + 1;
        }
        j = j + 1;
    }
    proof {
        assert(v.take(j as int) =~= v);
    }
    r
}

/// Index of the most frequent item of at least `min_bytes` bytes (the first such) when
/// it occurs in at least a third of `denom`.
fn pick_majority(items: &Vec<Vec<char>>, min_bytes: usize, denom: usize) -> (r: Option<usize>)
    ensures
        match r {
            Some(k) => majority_index(views(items@), min_bytes as int, denom as int) == Some(k as int),
            None => majority_index(views(items@), min_bytes as int, denom as int) is None,
        },
{
    let ghost v = views(items@);
    let ghost mb = min_bytes as int;
    let mut best: Option<(usize, usize)> = None;
    let mut i: usize = 0;
    while i < items.len()
        invariant
            v == views(items@),
            mb == min_bytes as int,
            i <= items@.len(),
            match best {
                None => forall|q: int| 0 <= q < i ==> !#[trigger] eligible(v, mb, q),
                Some((k, c)) => {
                    &&& k < i
                    &&& eligible(v, mb, k as int)
                    &&& c == count_occ(v, mb, v[k as int])
                    &&& forall|q: int| 0 <= q < i && #[trigger] eligible(v, mb, q) ==> count_occ(v, mb, v[q]) <= c
                    &&& forall|q: int| 0 <= q < k && #[trigger] eligible(v, mb, q) ==> count_occ(v, mb, v[q]) < c
                },
            },
        decreases items.len() - i,
    {
        proof {
            assert(v[i as int] == items@[i as int]@);
        }
        if utf8_len_of(items[i].as_slice()) >= min_bytes {
            let c = count_occurrences(items, min_bytes, items[i].as_slice());
            match best {
                None => {
                    best = Some((i, c));
                },
                Some((_, bc)) => {
                    if c > bc {
                        best = Some((i, c));
                    }
                },
            }
        }
        i = i + 1;
    }
    match best {
        None => {
            proof {
                if exists|k: int| first_max(v, mb, k) {
                    let k = choose|k: int| first_max(v, mb, k);
                    assert(eligible(v, mb, k));
                }
            }
            None
        },
        Some((k, c)) => {
            proof {
                assert(first_max(v, mb, k as int));
                let k2 = choose|k2: int| first_max(v, mb, k2);
                lemma_first_max_unique(v, mb, k as int, k2);
            }
            if (c as u128) * 3 >= denom as u128 {
                Some(k)
            } else {
                None
            }
        },
    }
}

/// Views of a list of strings.
pub open spec fn string_views(s: Seq<String>) -> Seq<Seq<char>> {
    s.map_values(|x: String| x@)
}

fn to_char_vecs(items: &[String]) -> (r: Vec<Vec<char>>)
    ensures
        views(r@) == string_views(items@),
{
    let mut r: Vec<Vec<char>> = Vec::new();
    let mut i: usize = 0;
    while i < items.len()
        invariant
            i <= items@.len(),
            views(r@) == string_views(items@.take(i as int)),
        decreases items.len() - i,
    {
        let c = chars_of(items[i].as_str());
        let ghost before = r@;
        let ghost cv = c@;
        r.push(c);
        proof {
            assert(views(r@) =~= views(before).push(cv));
            assert(string_views(items@.take(i as int + 1)) =~= string_views(items@.take(i as int)).push(items@[i as int]@));
        }
        i = i + 1;
    }
    proof {
        assert(items@.take(i as int) =~= items@);
    }
    r
}

/// The most frequent item of at least `min_len` bytes, when it makes up at least a
/// third of `items`.
pub fn majority_token(items: &[String], min_len: usize) -> (r: Option<String>)
    ensures
        match r {
            Some(s) => majority_text(string_views(items@), min_len as int, items@.len() as int) == Some(s@),
            None => majority_text(string_views(items@), min_len as int, items@.len() as int) is None,
        },
{
    let cv = to_char_vecs(items);
    match pick_majority(&cv, min_len, items.len()) {
        Some(k) => {
            proof {
                assert(views(cv@)[k as int] == cv@[k as int]@);
            }
            Some(string_from_chars(cv[k].as_slice()))
        },
        None => None,
    }
}

/// Keeps the non-empty pieces, in order.
pub open spec fn keep_nonempty(ps: Seq<Seq<char>>) -> Seq<Seq<char>>
    decreases ps.len(),
{
    if ps.len() == 0 {
        ps
    } else if ps.last().len() > 0 {
        keep_nonempty(ps.drop_last()).push(ps.last())
    } else {
        keep_nonempty(ps.drop_last())
    }
}

fn keep_nonempty_of(ps: &Vec<Vec<char>>) -> (r: Vec<Vec<char>>)
    ensures
        views(r@) == keep_nonempty(views(ps@)),
{
    let ghost v = views(ps@);
    let mut r: Vec<Vec<char>> = Vec::new();
    let mut i: usize = 0;
    while i < ps.len()
        invariant
            v == views(ps@),
            i <= ps@.len(),
            views(r@) == keep_nonempty(v.take(i as int)),
        decreases ps.len() - i,
    {
        proof {
            assert(v.take(i as int + 1).drop_last() =~= v.take(i as int));
            assert(v.take(i as int + 1).last() == ps@[i as int]@);
        }
        if ps[i].len() > 0 {
            let ghost before = r@;
            r.push(ps[i].clone());
            proof {
                assert(views(r@) =~= views(before).push(ps@[i as int]@));
            }
        }
        i = i + 1;
    }
    proof {
        assert(v.take(i as int) =~= v);
    }
    r
}

/// A dotted package name shortened to its last two non-empty parts.
pub open spec fn shorten_package(pkg: Seq<char>) -> Seq<char> {
    let parts = keep_nonempty(split_by(pkg, seq!['.']));
    if parts.len() <= 2 {
        pkg
    } else {
        parts[parts.len() - 2] + seq!['.'] + parts[parts.len() - 1]
    }
}

/// Keep only the last two dotted parts of a package label.
pub fn shorten_package_label(pkg: &str) -> (r: String)
    ensures
        r@ == shorten_package(pkg@),
{
    let s = chars_of(pkg);
    let seps = vec!['.'];
    proof {
        assert(seps@ =~= seq!['.']);
    }
    let pieces = split_chars(s.as_slice(), seps.as_slice());
    let parts = keep_nonempty_of(&pieces);
    if parts.len() <= 2 {
        return string_from_chars(s.as_slice());
    }
    let n = parts.len();
    let mut out: Vec<char> = Vec::new();
    push_all(&mut out, parts[n - 2].as_slice());
    out.push('.');
    push_all(&mut out, parts[n - 1].as_slice());
    proof {
        assert(views(parts@)[n - 2] == parts@[n - 2]@);
        assert(views(parts@)[n - 1] == parts@[n - 1]@);
        assert(out@ =~= parts@[n - 2]@ + seq!['.'] + parts@[n - 1]@);
    }
    string_from_chars(out.as_slice())
}

/// The last non-empty `/`-separated part of a path (backslashes read as `/`).
pub open spec fn shorten_path(path: Seq<char>) -> Seq<char> {
    let p = replace_char(path, '\\', '/');
    let parts = keep_nonempty(split_by(p, seq!['/']));
    if parts.len() > 0 {
        parts.last()
    } else {
        p
    }
}

/// Last non-empty path component.
pub fn shorten_path_label(path: &str) -> (r: String)
    ensures
        r@ == shorten_path(path@),
{
    let s = chars_of(path);
    let p = replace_char_of(s.as_slice(), '\\', '/');
    let seps = vec!['/'];
    proof {
        assert(seps@ =~= seq!['/']);
    }
    let pieces = split_chars(p.as_slice(), seps.as_slice());
    let parts = keep_nonempty_of(&pieces);
    if parts.len() > 0 {
        let n = parts.len();
        proof {
            assert(views(parts@)[n - 1] == parts@[n - 1]@);
        }
        string_from_chars(parts[n - 1].as_slice())
    } else {
        string_from_chars(p.as_slice())
    }
}

/// Parent directory of a path, as text (what std's `Path::parent` returns, read back as
/// a string).
pub uninterp spec fn path_parent(s: Seq<char>) -> Option<Seq<char>>;

/// std `Path::parent` on a UTF-8 path; the result is read back losslessly, since it is a
/// prefix of valid text. The contract only names the result: which prefix std picks
/// (trailing separators, `.` components, roots) is not restated here.
#[verifier::external_body]
fn path_parent_of(s: &str) -> (r: Option<String>)
    ensures
        match r {
            Some(p) => path_parent(s@) == Some(p@),
            None => path_parent(s@) is None,
        },
{
    match std::path::Path::new(s).parent() {
        Some(p) => Some(p.to_string_lossy().into_owned()),
        None => None,
    }
}

/// `/`-separated directory of a path written with dots, kept when non-empty.
pub open spec fn dotted(par: Option<Seq<char>>) -> Option<Seq<char>> {
    match par {
        Some(q) => if replace_char(q, '/', '.').len() > 0 { Some(replace_char(q, '/', '.')) } else { None },
        None => None,
    }
}

/// Package read from the directory below the first occurrence of `marker`.
pub open spec fn package_after(p: Seq<char>, marker: Seq<char>) -> Option<Seq<char>> {
    let j = find_from(p, marker, 0);
    if j >= 0 {
        dotted(path_parent(p.subrange(j + marker.len(), p.len() as int)))
    } else {
        None
    }
}

/// Package label of a file path: the dotted directory below `/java/`, else below
/// `/src/`, else the dotted parent directory, else `root`.
pub open spec fn package_label(file_path: Seq<char>) -> Seq<char> {
    let p = replace_char(file_path, '\\', '/');
    match package_after(p, seq!['/', 'j', 'a', 'v', 'a', '/']) {
        Some(k) => k,
        None => match package_after(p, seq!['/', 's', 'r', 'c', '/']) {
            Some(k) => k,
            None => match dotted(path_parent(p)) {
                Some(k) => k,
                None => seq!['r', 'o', 'o', 't'],
            },
        },
    }
}

/// A parent directory written with dots: `/` becomes `.`, and an empty result is none.
pub fn dotted_of(par: Option<&str>) -> (r: Option<Vec<char>>)
    ensures
        match r {
            Some(k) => dotted(match par { Some(q) => Some(q@), None => None }) == Some(k@),
            None => dotted(match par { Some(q) => Some(q@), None => None }) is None,
        },
{
    match par {
        Some(q) => {
            let pc = chars_of(q);
            let d = replace_char_of(pc.as_slice(), '/', '.');
            if d.len() > 0 {
                Some(d)
            } else {
                None
            }
        },
        None => None,
    }
}

fn dotted_parent(p: &[char]) -> (r: Option<Vec<char>>)
    ensures
        match r {
            Some(k) => dotted(path_parent(p@)) == Some(k@),
            None => dotted(path_parent(p@)) is None,
        },
{
    let ps = string_from_chars(p);
    let par = path_parent_of(ps.as_str());
    match &par {
        Some(q) => dotted_of(Some(q.as_str())),
        None => dotted_of(None),
    }
}

fn package_after_of(p: &[char], marker: &[char]) -> (r: Option<Vec<char>>)
    ensures
        match r {
            Some(k) => package_after(p@, marker@) == Some(k@),
            None => package_after(p@, marker@) is None,
        },
{
    let n = p.len();
    match find_sub(p, marker) {
        Some(j) => {
            let after = crate::text::chars_slice(p, j + marker.len(), n);
            dotted_parent(after.as_slice())
        },
        None => None,
    }
}

/// Package label derived from a file path.
pub fn package_label_from_path(file_path: &str) -> (r: String)
    ensures
        r@ == package_label(file_path@),
{
    let s = chars_of(file_path);
    let p = replace_char_of(s.as_slice(), '\\', '/');
    let java = vec!['/', 'j', 'a', 'v', 'a', '/'];
    let src = vec!['/', 's', 'r', 'c', '/'];
    proof {
        assert(java@ =~= seq!['/', 'j', 'a', 'v', 'a', '/']);
        assert(src@ =~= seq!['/', 's', 'r', 'c', '/']);
    }
    if let Some(k) = package_after_of(p.as_slice(), java.as_slice()) {
        return string_from_chars(k.as_slice());
    }
    if let Some(k) = package_after_of(p.as_slice(), src.as_slice()) {
        return string_from_chars(k.as_slice());
    }
    if let Some(k) = dotted_parent(p.as_slice()) {
        return string_from_chars(k.as_slice());
    }
    let root = vec!['r', 'o', 'o', 't'];
    proof {
        assert(root@ =~= seq!['r', 'o', 'o', 't']);
    }
    string_from_chars(root.as_slice())
}

/// Length of the longest common prefix of `a` and `b`.
pub open spec fn lcp(a: Seq<char>, b: Seq<char>) -> nat
    decreases a.len(),
{
    if a.len() == 0 || b.len() == 0 || a[0] != b[0] {
        0
    } else {
        1 + lcp(a.drop_first(), b.drop_first())
    }
}

proof fn lemma_lcp(a: Seq<char>, b: Seq<char>, i: int)
    requires
        0 <= i <= a.len(),
        i <= b.len(),
        forall|j: int| 0 <= j < i ==> a[j] == b[j],
        i == a.len() || i == b.len() || a[i] != b[i],
    ensures
        lcp(a, b) == i,
    decreases i,
{
    if i > 0 {
        assert(a[0] == b[0]);
        lemma_lcp(a.drop_first(), b.drop_first(), i - 1);
    }
}

/// Characters shared by the first path and each of the first `m` paths.
pub open spec fn common_len(ps: Seq<Seq<char>>, m: int) -> int
    decreases m,
{
    if m <= 1 {
        ps[0].len() as int
    } else {
        let k = common_len(ps, m - 1);
        let l = lcp(ps[0], ps[m - 1]) as int;
        if l < k { l } else { k }
    }
}

/// Byte offset `k` falls between two characters of `s`.
pub open spec fn byte_boundary(s: Seq<char>, k: int) -> bool {
    exists|j: int| 0 <= j <= s.len() && utf8_len(s.take(j)) == k
}

/// Number of characters of `s` whose encoding takes the first `k` bytes.
pub open spec fn chars_for_bytes(s: Seq<char>, k: int) -> int {
    choose|j: int| 0 <= j <= s.len() && utf8_len(s.take(j)) == k
}

/// The common prefix of the paths: as many leading bytes of the first path as the paths
/// share leading characters, cut back to its last `/` when it has one.
pub open spec fn common_prefix(ps: Seq<Seq<char>>) -> Option<Seq<char>> {
    if ps.len() == 0 {
        None
    } else {
        let k = common_len(ps, ps.len() as int);
        if k == 0 {
            None
        } else {
            let pre = ps[0].take(chars_for_bytes(ps[0], k));
            let sl = last_index_of(pre, '/');
            if sl >= 0 {
                Some(ps[0].take(sl))
            } else {
                Some(pre)
            }
        }
    }
}

/// Slicing the first path at the common length does not split a character.
pub open spec fn prefix_cut_ok(ps: Seq<Seq<char>>) -> bool {
    ps.len() > 0 ==> byte_boundary(ps[0], common_len(ps, ps.len() as int))
}

proof fn lemma_utf8_take_mono(s: Seq<char>, j1: int, j2: int)
    requires
        0 <= j1 < j2 <= s.len(),
    ensures
        utf8_len(s.take(j1)) < utf8_len(s.take(j2)),
    decreases j2,
{
    assert(s.take(j2).drop_last() =~= s.take(j2 - 1));
    if j1 < j2 - 1 {
        lemma_utf8_take_mono(s, j1, j2 - 1);
    }
}

fn chars_for_bytes_exec(s: &[char], k: usize) -> (j: usize)
    requires
        byte_boundary(s@, k as int),
    ensures
        j as int == chars_for_bytes(s@, k as int),
        j <= s@.len(),
{
    let ghost w = choose|w: int| 0 <= w <= s@.len() && utf8_len(s@.take(w)) == k;
    let mut j: usize = 0;
    let mut acc: usize = 0;
    proof {
        assert(s@.take(0) =~= Seq::<char>::empty());
    }
    while acc < k
        invariant
            0 <= w <= s@.len(),
            utf8_len(s@.take(w)) == k,
            j <= w,
            acc as int == utf8_len(s@.take(j as int)),
            acc <= k,
        decreases w - j,
    {
        proof {
            if j as int == w {
                assert(false);
            }
            assert(s@.take(j as int + 1).drop_last() =~= s@.take(j as int));
            assert(s@.take(j as int + 1).last() == s@[j as int]);
            if j + 1 < w {
                lemma_utf8_take_mono(s@, j as int + 1, w);
            }
        }
        let wd = crate::text::utf8_width(s[j]);
        acc = acc + wd;
        j = j + 1;
    }
    proof {
        let c = chars_for_bytes(s@, k as int);
        if c < j {
            lemma_utf8_take_mono(s@, c, j as int);
        } else if c > j {
            lemma_utf8_take_mono(s@, j as int, c);
        }
    }
    j
}

/// Longest common directory prefix of the paths.
pub fn find_common_path_prefix_strings(paths: &[String]) -> (r: Option<String>)
    requires
        prefix_cut_ok(string_views(paths@)),
    ensures
        match r {
            Some(s) => common_prefix(string_views(paths@)) == Some(s@),
            None => common_prefix(string_views(paths@)) is None,
        },
{
    if paths.len() == 0 {
        return None;
    }
    let ghost ps = string_views(paths@);
    let first = chars_of(paths[0].as_str());
    let mut prefix_len: usize = first.len();
    let mut m: usize = 1;
    while m < paths.len()
        invariant
            ps == string_views(paths@),
            1 <= m <= paths@.len(),
            first@ == ps[0],
            prefix_len as int == common_len(ps, m as int),
            prefix_len <= first@.len(),
        decreases paths.len() - m,
    {
        let other = chars_of(paths[m].as_str());
        let mut i: usize = 0;
        while i < first.len() && i < other.len() && i < prefix_len && first[i] == other[i]
            invariant
                i <= first@.len(),
                i <= other@.len(),
                i <= prefix_len,
                forall|j: int| 0 <= j < i ==> first@[j] == other@[j],
            decreases first.len() - i,
        {
            i = i + 1;
        }
        proof {
            assert(ps[m as int] == other@);
            if i < prefix_len {
                lemma_lcp(first@, other@, i as int);
            } else {
                lemma_lcp_prefix(first@, other@, i as int);
            }
        }
        prefix_len = i;
        m = m + 1;
    }
    if prefix_len == 0 {
        return None;
    }
    let j = chars_for_bytes_exec(first.as_slice(), prefix_len);
    let pre = crate::text::chars_slice(first.as_slice(), 0, j);
    proof {
        assert(pre@ =~= ps[0].take(j as int));
    }
    proof {
        crate::cfg::lemma_last_index_of(pre@, '/');
    }
    match last_index_of_exec(pre.as_slice(), '/') {
        Some(sl) => {
            let cut = crate::text::chars_slice(first.as_slice(), 0, sl);
            proof {
                assert(cut@ =~= ps[0].take(sl as int));
            }
            Some(string_from_chars(cut.as_slice()))
        },
        None => Some(string_from_chars(pre.as_slice())),
    }
}

/// Sharing the first `i` characters means a common prefix of at least `i`.
proof fn lemma_lcp_prefix(a: Seq<char>, b: Seq<char>, i: int)
    requires
        0 <= i <= a.len(),
        i <= b.len(),
        forall|j: int| 0 <= j < i ==> a[j] == b[j],
    ensures
        lcp(a, b) >= i,
    decreases i,
{
    if i > 0 {
        assert(a[0] == b[0]);
        lemma_lcp_prefix(a.drop_first(), b.drop_first(), i - 1);
    }
}

/// Separators between the words of a symbol name.
pub open spec fn word_seps() -> Seq<char> {
    seq!['_', '-', '.']
}

/// All words of all names, in order.
pub open spec fn name_tokens(names: Seq<Seq<char>>) -> Seq<Seq<char>>
    decreases names.len(),
{
    if names.len() == 0 {
        Seq::empty()
    } else {
        name_tokens(names.drop_last()) + split_by(names.last(), word_seps())
    }
}

/// `Community <idx>`.
pub open spec fn community_n(idx: int) -> Seq<char> {
    seq!['C', 'o', 'm', 'm', 'u', 'n', 'i', 't', 'y', ' '] + decimal(idx as nat)
}

/// Label from member names: the most frequent word of at least three bytes when it
/// occurs at least a third as often as there are names, else `Community <idx>`.
pub open spec fn label_from_names(names: Seq<Seq<char>>, idx: int) -> Seq<char> {
    match majority_text(name_tokens(names), 3, names.len() as int) {
        Some(t) => t,
        None => community_n(idx),
    }
}

fn community_n_of(idx: usize) -> (r: Vec<char>)
    ensures
        r@ == community_n(idx as int),
{
    let mut r = vec!['C', 'o', 'm', 'm', 'u', 'n', 'i', 't', 'y', ' '];
    let d = decimal_chars(idx);
    push_all(&mut r, d.as_slice());
    r
}

/// Label a community from the words of its member names.
pub fn infer_label_from_names(names: &[String], idx: usize) -> (r: String)
    ensures
        r@ == label_from_names(string_views(names@), idx as int),
{
    let ghost nv = string_views(names@);
    let seps = vec!['_', '-', '.'];
    proof {
        assert(seps@ =~= word_seps());
    }
    let mut tokens: Vec<Vec<char>> = Vec::new();
    let mut i: usize = 0;
    while i < names.len()
        invariant
            nv == string_views(names@),
            seps@ == word_seps(),
            i <= names@.len(),
            views(tokens@) == name_tokens(nv.take(i as int)),
        decreases names.len() - i,
    {
        proof {
            assert(nv.take(i as int + 1).drop_last() =~= nv.take(i as int));
            assert(nv.take(i as int + 1).last() == names@[i as int]@);
        }
        let c = chars_of(names[i].as_str());
        let parts = split_chars(c.as_slice(), seps.as_slice());
        let ghost before = views(tokens@);
        let mut k: usize = 0;
        while k < parts.len()
            invariant
                k <= parts@.len(),
                views(tokens@) == before + views(parts@).take(k as int),
            decreases parts.len() - k,
        {
            let ghost prev = tokens@;
            tokens.push(parts[k].clone());
            proof {
                assert(views(tokens@) =~= views(prev).push(parts@[k as int]@));
                assert(views(parts@).take(k as int + 1) =~= views(parts@).take(k as int).push(parts@[k as int]@));
                assert(views(tokens@) =~= before + views(parts@).take(k as int + 1));
            }
            k = k + 1;
        }
        proof {
            assert(views(parts@).take(k as int) =~= views(parts@));
        }
        i = i + 1;
    }
    proof {
        assert(nv.take(i as int) =~= nv);
    }
    match pick_majority(&tokens, 3, names.len()) {
        Some(k) => {
            proof {
                assert(views(tokens@)[k as int] == tokens@[k as int]@);
            }
            string_from_chars(tokens[k].as_slice())
        },
        None => {
            let r = community_n_of(idx);
            string_from_chars(r.as_slice())
        },
    }
}

/// Inputs for naming a single community.
pub struct CommunityLabelHints<'a> {
    /// Community id from label propagation.
    pub id: usize,
    /// Member symbol names.
    pub names: &'a [String],
    /// Member file paths.
    pub file_paths: &'a [String],
    /// Package / module labels (majority vote preferred).
    pub package_labels: &'a [String],
    /// Highest-PageRank member name within the community, if known.
    pub top_pagerank_name: Option<&'a str>,
    /// True when this id is the infrastructure / hub cluster.
    pub is_infrastructure: bool,
}

/// `Infrastructure / Common Library`.
pub open spec fn infrastructure_label() -> Seq<char> {
    seq!['I', 'n', 'f', 'r', 'a', 's', 't', 'r', 'u', 'c', 't', 'u', 'r', 'e', ' ', '/', ' ', 'C', 'o', 'm', 'm', 'o', 'n', ' ', 'L', 'i', 'b', 'r', 'a', 'r', 'y']
}

/// Separators before the short form of a symbol name.
pub open spec fn name_path_seps() -> Seq<char> {
    seq!['/', '.', ':']
}

/// The package that names the community, when the package vote settles it.
pub open spec fn package_choice(packages: Seq<Seq<char>>) -> Option<Seq<char>> {
    match majority_text(packages, 2, packages.len() as int) {
        Some(pkg) => if pkg.len() > 0 && pkg != seq!['r', 'o', 'o', 't'] { Some(pkg) } else { None },
        None => None,
    }
}

/// Short form of the top-ranked name, when it has more than two bytes.
pub open spec fn short_top(top: Option<Seq<char>>) -> Option<Seq<char>> {
    match top {
        Some(nm) => if utf8_len(last_piece(nm, name_path_seps())) > 2 { Some(last_piece(nm, name_path_seps())) } else { None },
        None => None,
    }
}

/// The label that `infer_community_label` gives.
pub open spec fn community_label(
    id: int,
    names: Seq<Seq<char>>,
    paths: Seq<Seq<char>>,
    packages: Seq<Seq<char>>,
    top: Option<Seq<char>>,
    infra: bool,
) -> Seq<char> {
    if infra {
        infrastructure_label()
    } else {
        match package_choice(packages) {
            Some(pkg) => match short_top(top) {
                Some(short) => shorten_package(pkg) + seq![':', ':'] + short,
                None => shorten_package(pkg),
            },
            None => match common_prefix(paths) {
                Some(c) => if c.len() > 0 {
                    shorten_path(c)
                } else {
                    match short_top(top) {
                        Some(short) => short,
                        None => label_from_names(names, id),
                    }
                },
                None => match short_top(top) {
                    Some(short) => short,
                    None => label_from_names(names, id),
                },
            },
        }
    }
}

impl<'a> CommunityLabelHints<'a> {
    /// The top-ranked name as characters.
    pub open spec fn top_view(&self) -> Option<Seq<char>> {
        match self.top_pagerank_name {
            Some(s) => Some(s@),
            None => None,
        }
    }

    /// The label these hints call for.
    pub open spec fn label(&self) -> Seq<char> {
        community_label(
            self.id as int,
            string_views(self.names@),
            string_views(self.file_paths@),
            string_views(self.package_labels@),
            self.top_view(),
            self.is_infrastructure,
        )
    }

    /// The common-path rule is reached only with paths whose shared prefix can be cut
    /// between characters.
    pub open spec fn labelable(&self) -> bool {
        !self.is_infrastructure && package_choice(string_views(self.package_labels@)) is None
            ==> prefix_cut_ok(string_views(self.file_paths@))
    }
}

fn short_top_of(top: Option<&str>) -> (r: Option<Vec<char>>)
    ensures
        match r {
            Some(s) => short_top(match top { Some(t) => Some(t@), None => None }) == Some(s@),
            None => short_top(match top { Some(t) => Some(t@), None => None }) is None,
        },
{
    match top {
        Some(name) => {
            let c = chars_of(name);
            let seps = vec!['/', '.', ':'];
            proof {
                assert(seps@ =~= name_path_seps());
            }
            let short = last_piece_of(c.as_slice(), seps.as_slice());
            if utf8_len_of(short.as_slice()) > 2 {
                Some(short)
            } else {
                None
            }
        },
        None => None,
    }
}

/// Infer a human-readable community label.
pub fn infer_community_label(hints: &CommunityLabelHints) -> (r: String)
    requires
        hints.labelable(),
    ensures
        r@ == hints.label(),
{
    if hints.is_infrastructure {
        let s = vec![
            'I', 'n', 'f', 'r', 'a', 's', 't', 'r', 'u', 'c', 't', 'u', 'r', 'e', ' ', '/', ' ', 'C', 'o', 'm', 'm', 'o', 'n', ' ', 'L',
            'i', 'b', 'r', 'a', 'r', 'y',
        ];
        proof {
            assert(s@ =~= infrastructure_label());
        }
        return string_from_chars(s.as_slice());
    }
    let short = short_top_of(hints.top_pagerank_name);
    if let Some(pkg) = majority_token(hints.package_labels, 2) {
        let pc = chars_of(pkg.as_str());
        let root = vec!['r', 'o', 'o', 't'];
        proof {
            assert(root@ =~= seq!['r', 'o', 'o', 't']);
        }
        if pc.len() > 0 && !chars_eq(pc.as_slice(), root.as_slice()) {
            let base = shorten_package_label(pkg.as_str());
            match short {
                Some(sh) => {
                    let mut out = chars_of(base.as_str());
                    out.push(':');
                    out.push(':');
                    push_all(&mut out, sh.as_slice());
                    proof {
                        assert(out@ =~= shorten_package(pkg@) + seq![':', ':'] + sh@);
                    }
                    return string_from_chars(out.as_slice());
                },
                None => {
                    return base;
                },
            }
        }
    }
    if let Some(common) = find_common_path_prefix_strings(hints.file_paths) {
        if common.as_str().unicode_len() > 0 {
            return shorten_path_label(common.as_str());
        }
    }
    match short {
        Some(sh) => string_from_chars(sh.as_slice()),
        None => infer_label_from_names(hints.names, hints.id),
    }
}

/// The label `text (c)`.
pub open spec fn suffixed(text: Seq<char>, c: nat) -> Seq<char> {
    text + seq![' ', '('] + decimal(c) + seq![')']
}

/// The first `c`, counting up from `c` for at most `fuel` steps, whose label `text (c)` is
/// not taken (ignoring ASCII case).
pub open spec fn first_free(taken: Seq<Seq<char>>, text: Seq<char>, c: nat, fuel: nat) -> nat
    decreases fuel,
{
    if fuel == 0 || !taken.contains(ascii_lower(suffixed(text, c))) {
        c
    } else {
        first_free(taken, text, c + 1, (fuel - 1) as nat)
    }
}

/// The label kept for `text` when the lower-cased labels `taken` are in use: the text itself
/// when it is free, else `text (c)` for the smallest `c >= 2` that is free.
pub open spec fn pick_label(taken: Seq<Seq<char>>, text: Seq<char>) -> Seq<char> {
    if !taken.contains(ascii_lower(text)) {
        text
    } else {
        suffixed(text, first_free(taken, text, 2, taken.len() + 1))
    }
}

/// Labels after de-duplication, in order: each label is picked against the lower-cased
/// labels kept before it.
pub open spec fn deduped_all(ls: Seq<Seq<char>>) -> Seq<Seq<char>>
    decreases ls.len(),
{
    if ls.len() == 0 {
        Seq::empty()
    } else {
        let prev = deduped_all(ls.drop_last());
        prev.push(pick_label(prev.map_values(|t: Seq<char>| ascii_lower(t)), ls.last()))
    }
}

/// The texts of labelled pairs.
pub open spec fn label_texts(ls: Seq<(usize, String)>) -> Seq<Seq<char>> {
    ls.map_values(|p: (usize, String)| p.1@)
}

proof fn lemma_decimal_len(n: nat)
    ensures
        decimal(n).len() >= 1,
        n >= 10 ==> decimal(n).len() >= 2,
        forall|k: int| 0 <= k < decimal(n).len() ==> !('A' <= #[trigger] decimal(n)[k] <= 'Z'),
    decreases n,
{
    if n >= 10 {
        lemma_decimal_len(n / 10);
        let d = decimal(n / 10);
        assert forall|k: int| 0 <= k < decimal(n).len() implies !('A' <= #[trigger] decimal(n)[k] <= 'Z') by {
            if k < d.len() {
                assert(decimal(n)[k] == d[k]);
            }
        }
    }
}

proof fn lemma_digit_injective(x: int, y: int)
    requires
        0 <= x < 10,
        0 <= y < 10,
        crate::text::digit_char(x) == crate::text::digit_char(y),
    ensures
        x == y,
{
}

proof fn lemma_decimal_injective(a: nat, b: nat)
    requires
        decimal(a) == decimal(b),
    ensures
        a == b,
    decreases a,
{
    lemma_decimal_len(a);
    lemma_decimal_len(b);
    if a >= 10 && b >= 10 {
        let da = decimal(a);
        assert(da.last() == crate::text::digit_char((a % 10) as int));
        assert(decimal(b).last() == crate::text::digit_char((b % 10) as int));
        lemma_digit_injective((a % 10) as int, (b % 10) as int);
        assert(decimal(a / 10) =~= da.drop_last());
        assert(decimal(b / 10) =~= decimal(b).drop_last());
        lemma_decimal_injective(a / 10, b / 10);
    } else if a < 10 && b < 10 {
        assert(decimal(a)[0] == crate::text::digit_char(a as int));
        assert(decimal(b)[0] == crate::text::digit_char(b as int));
        lemma_digit_injective(a as int, b as int);
    } else if a < 10 {
        assert(decimal(a).len() == 1);
    } else {
        assert(decimal(b).len() == 1);
    }
}

proof fn lemma_suffixed_injective(text: Seq<char>, a: nat, b: nat)
    requires
        ascii_lower(suffixed(text, a)) == ascii_lower(suffixed(text, b)),
    ensures
        a == b,
{
    lemma_decimal_len(a);
    lemma_decimal_len(b);
    let da = decimal(a);
    let db = decimal(b);
    let la = ascii_lower(suffixed(text, a));
    let lb = ascii_lower(suffixed(text, b));
    assert(la.len() == suffixed(text, a).len());
    assert(lb.len() == suffixed(text, b).len());
    assert(da.len() == db.len());
    assert forall|k: int| 0 <= k < da.len() implies da[k] == db[k] by {
        let pos = text.len() + 2 + k;
        assert(suffixed(text, a)[pos] == da[k]);
        assert(suffixed(text, b)[pos] == db[k]);
        assert(la[pos] == lb[pos]);
    }
    assert(da =~= db);
    lemma_decimal_injective(a, b);
}

/// Lower-cased candidates `text (c)` for `2 <= c < 2 + k`.
spec fn candidates(text: Seq<char>, k: nat) -> Set<Seq<char>> {
    Set::new(|s: Seq<char>| exists|c: nat| 2 <= c < 2 + k && s == #[trigger] ascii_lower(suffixed(text, c)))
}

proof fn lemma_candidates_len(text: Seq<char>, k: nat)
    ensures
        candidates(text, k).finite(),
        candidates(text, k).len() == k,
    decreases k,
{
    if k == 0 {
        assert(candidates(text, 0) =~= Set::<Seq<char>>::empty());
    } else {
        let k1 = (k - 1) as nat;
        lemma_candidates_len(text, k1);
        let x = ascii_lower(suffixed(text, (1 + k) as nat));
        assert(candidates(text, k) =~= candidates(text, k1).insert(x)) by {
            assert forall|s: Seq<char>| candidates(text, k).contains(s) implies candidates(text, k1).insert(x).contains(s) by {
                let c = choose|c: nat| 2 <= c < 2 + k && s == #[trigger] ascii_lower(suffixed(text, c));
                if c < 1 + k {
                    assert(candidates(text, k1).contains(s));
                }
            }
            assert forall|s: Seq<char>| candidates(text, k1).insert(x).contains(s) implies candidates(text, k).contains(s) by {
                if s == x {
                    let c1: nat = (1 + k) as nat;
                    assert(2 <= c1 && c1 < 2 + k);
                } else {
                    let c = choose|c: nat| 2 <= c < 2 + k1 && s == #[trigger] ascii_lower(suffixed(text, c));
                    assert(2 <= c < 2 + k);
                }
            }
        }
        if candidates(text, k1).contains(x) {
            let c = choose|c: nat| 2 <= c < 2 + k1 && x == #[trigger] ascii_lower(suffixed(text, c));
            lemma_suffixed_injective(text, c, (1 + k) as nat);
        }
    }
}

/// Among `text (2)` .. `text (len + 2)` some label is not taken.
proof fn lemma_some_free(taken: Seq<Seq<char>>, text: Seq<char>, c: nat)
    requires
        2 <= c,
        forall|d: nat| 2 <= d <= c ==> taken.contains(#[trigger] ascii_lower(suffixed(text, d))),
    ensures
        c < taken.len() + 2,
{
    let k = (c - 1) as nat;
    lemma_candidates_len(text, k);
    assert(candidates(text, k).subset_of(taken.to_set())) by {
        assert forall|s: Seq<char>| candidates(text, k).contains(s) implies taken.to_set().contains(s) by {
            let d = choose|d: nat| 2 <= d < 2 + k && s == #[trigger] ascii_lower(suffixed(text, d));
            assert(taken.contains(ascii_lower(suffixed(text, d))));
        }
    }
    taken.lemma_cardinality_of_set();
    vstd::seq_lib::seq_to_set_is_finite(taken);
    vstd::set_lib::lemma_len_subset(candidates(text, k), taken.to_set());
}

fn contains_label(taken: &Vec<Vec<char>>, t: &[char]) -> (r: bool)
    ensures
        r == views(taken@).contains(t@),
{
    let mut i: usize = 0;
    while i < taken.len()
        invariant
            i <= taken@.len(),
            forall|k: int| 0 <= k < i ==> taken@[k]@ != t@,
        decreases taken.len() - i,
    {
        if chars_eq(taken[i].as_slice(), t) {
            assert(views(taken@)[i as int] == t@);
            return true;
        }
        i = i + 1;
    }
    proof {
        if views(taken@).contains(t@) {
            let k = choose|k: int| 0 <= k < views(taken@).len() && views(taken@)[k] == t@;
            assert(taken@[k]@ == t@);
        }
    }
    false
}

fn suffixed_of(text: &Vec<char>, c: usize) -> (r: Vec<char>)
    ensures
        r@ == suffixed(text@, c as nat),
{
    let mut out = text.clone();
    assert(out@ == text@);
    out.push(' ');
    out.push('(');
    let d = decimal_chars(c);
    push_all(&mut out, d.as_slice());
    out.push(')');
    assert(out@ =~= suffixed(text@, c as nat));
    out
}

/// Ensure colliding labels become unique, ignoring ASCII case: a label already in use
/// becomes `label (c)` for the smallest `c >= 2` whose label is free (`auth`, `auth (2)`, ...).
pub fn dedupe_community_labels(labels: &mut Vec<(usize, String)>)
    requires
        old(labels)@.len() < usize::MAX,
    ensures
        final(labels)@.len() == old(labels)@.len(),
        forall|i: int| 0 <= i < old(labels)@.len() ==> (#[trigger] final(labels)@[i]).0 == old(labels)@[i].0
            && final(labels)@[i].1@ == deduped_all(label_texts(old(labels)@))[i],
        forall|i: int, j: int| 0 <= i < j < final(labels)@.len() ==> ascii_lower(#[trigger] final(labels)@[i].1@) != ascii_lower(#[trigger] final(labels)@[j].1@),
{
    let ghost orig = label_texts(labels@);
    let ghost ids0 = labels@;
    let n = labels.len();
    let mut taken: Vec<Vec<char>> = Vec::new();
    let mut i: usize = 0;
    while i < n
        invariant
            n == labels@.len(),
            n == ids0.len(),
            n < usize::MAX,
            orig == label_texts(ids0),
            i <= n,
            taken@.len() == i,
            deduped_all(orig.take(i as int)).len() == i,
            forall|k: int| 0 <= k < i ==> (#[trigger] taken@[k])@ == ascii_lower(deduped_all(orig.take(i as int))[k]),
            forall|a: int, b: int| 0 <= a < b < i ==> (#[trigger] taken@[a])@ != (#[trigger] taken@[b])@,
            forall|k: int| 0 <= k < n ==> (#[trigger] labels@[k]).0 == ids0[k].0,
            forall|k: int| 0 <= k < n ==> (#[trigger] labels@[k]).1@ == (if k < i { deduped_all(orig.take(i as int))[k] } else { orig[k] }),
        decreases n - i,
    {
        let ghost prev = deduped_all(orig.take(i as int));
        let ghost lows = prev.map_values(|t: Seq<char>| ascii_lower(t));
        proof {
            assert(views(taken@) =~= lows);
            assert(orig.take(i as int + 1).drop_last() =~= orig.take(i as int));
            assert(orig.take(i as int + 1).last() == orig[i as int]);
            assert(orig[i as int] == labels@[i as int].1@);
        }
        let text = chars_of(labels[i].1.as_str());
        let key = ascii_lower_of(text.as_slice());
        let chosen: Vec<char>;
        let chosen_key: Vec<char>;
        if !contains_label(&taken, key.as_slice()) {
            chosen = text;
            chosen_key = key;
        } else {
            let mut c: usize = 2;
            let mut cand = suffixed_of(&text, c);
            let mut cand_key = ascii_lower_of(cand.as_slice());
            proof {
                assert(first_free(lows, text@, 2, lows.len() + 1) == first_free(lows, text@, 2, (lows.len() + 3 - 2) as nat));
            }
            while contains_label(&taken, cand_key.as_slice())
                invariant
                    2 <= c <= i + 2,
                    i < n,
                    n < usize::MAX,
                    taken@.len() == i,
                    views(taken@) == lows,
                    lows.len() == i,
                    cand@ == suffixed(text@, c as nat),
                    cand_key@ == ascii_lower(cand@),
                    forall|d: nat| 2 <= d < c ==> lows.contains(#[trigger] ascii_lower(suffixed(text@, d))),
                    first_free(lows, text@, 2, lows.len() + 1) == first_free(lows, text@, c as nat, (lows.len() + 3 - c) as nat),
                decreases i + 2 - c,
            {
                proof {
                    assert forall|d: nat| 2 <= d <= c implies lows.contains(#[trigger] ascii_lower(suffixed(text@, d))) by {}
                    lemma_some_free(lows, text@, c as nat);
                }
                c = c + 1;
                cand = suffixed_of(&text, c);
                cand_key = ascii_lower_of(cand.as_slice());
            }
            proof {
                assert(first_free(lows, text@, c as nat, (lows.len() + 3 - c) as nat) == c);
            }
            chosen = cand;
            chosen_key = cand_key;
        }
        proof {
            assert(chosen@ == pick_label(lows, orig[i as int]));
            assert(deduped_all(orig.take(i as int + 1)) == prev.push(chosen@));
            assert(!lows.contains(chosen_key@));
        }
        let id = labels[i].0;
        labels.set(i, (id, string_from_chars(chosen.as_slice())));
        let ghost t0 = taken@;
        taken.push(chosen_key);
        proof {
            let nd = deduped_all(orig.take(i as int + 1));
            assert forall|k: int| 0 <= k < i + 1 implies (#[trigger] taken@[k])@ == ascii_lower(nd[k]) by {
                if k < i {
                    assert(taken@[k] == t0[k]);
                    assert(nd[k] == prev[k]);
                }
            }
            assert forall|a: int, b: int| 0 <= a < b < i + 1 implies (#[trigger] taken@[a])@ != (#[trigger] taken@[b])@ by {
                if b == i {
                    assert(taken@[a] == t0[a]);
                    assert(lows[a] == t0[a]@);
                }
            }
        }
        i = i + 1;
    }
    proof {
        assert(orig.take(n as int) =~= orig);
        assert forall|a: int, b: int| 0 <= a < b < labels@.len() implies ascii_lower(#[trigger] labels@[a].1@) != ascii_lower(#[trigger] labels@[b].1@) by {
            assert(taken@[a]@ != taken@[b]@);
        }
    }
}


/// When no package vote settles the label and the file paths share a non-empty common
/// prefix, the label is the last component of that prefix: the top-ranked name is not
/// consulted, so two top-ranked names give the same label.
pub proof fn lemma_common_prefix_before_top_name(
    id: int,
    names: Seq<Seq<char>>,
    paths: Seq<Seq<char>>,
    packages: Seq<Seq<char>>,
    top1: Option<Seq<char>>,
    top2: Option<Seq<char>>,
    c: Seq<char>,
)
    requires
        package_choice(packages) is None,
        common_prefix(paths) == Some(c),
        c.len() > 0,
    ensures
        community_label(id, names, paths, packages, top1, false) == shorten_path(c),
        community_label(id, names, paths, packages, top1, false) == community_label(id, names, paths, packages, top2, false),
{
}


/// Infrastructure communities get the infrastructure label, whatever else is known.
pub proof fn lemma_infrastructure_label(
    id: int,
    names: Seq<Seq<char>>,
    paths: Seq<Seq<char>>,
    packages: Seq<Seq<char>>,
    top: Option<Seq<char>>,
)
    ensures
        community_label(id, names, paths, packages, top, true) == infrastructure_label(),
{
}

/// A package vote that settles the label puts the shortened package first, whatever the
/// paths and names are.
pub proof fn lemma_package_label_first(
    id: int,
    names: Seq<Seq<char>>,
    paths: Seq<Seq<char>>,
    packages: Seq<Seq<char>>,
    top: Option<Seq<char>>,
    pkg: Seq<char>,
)
    requires
        package_choice(packages) == Some(pkg),
    ensures
        community_label(id, names, paths, packages, top, false).take(shorten_package(pkg).len() as int)
            == shorten_package(pkg),
        community_label(id, names, paths, packages, top, false) == shorten_package(pkg) <==> short_top(top) is None,
{
    let l = community_label(id, names, paths, packages, top, false);
    match short_top(top) {
        Some(short) => {
            assert(l.take(shorten_package(pkg).len() as int) =~= shorten_package(pkg));
            assert(l.len() > shorten_package(pkg).len());
        },
        None => {
            assert(l.take(shorten_package(pkg).len() as int) =~= shorten_package(pkg));
        },
    }
}

} // verus!
