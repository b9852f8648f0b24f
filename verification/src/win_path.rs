//! Windows paths, read component by component as `std::path::Path` reads
//! them on Windows: an optional prefix (`C:`, `\\server\share`, `\\?\...`,
//! `\\.\device`), then components split at separators, where empty
//! components are dropped and so are `.` components outside verbatim paths.
use vstd::prelude::*;

verus! {

/// The directory name the game switches to once it is ready.
pub open spec fn data_dir_name() -> Seq<char> {
    seq!['d', 'a', 't', 'a']
}

/// A character as the prefix parser reads it: among the first eight, a `/`
/// counts as a `\`.
pub open spec fn prefix_char(s: Seq<char>, i: int) -> char {
    if i < 8 && s[i] == '/' {
        '\\'
    } else {
        s[i]
    }
}

/// Whether `s` starts with the verbatim marker `\\?\`.
pub open spec fn starts_verbatim(s: Seq<char>) -> bool {
    &&& s.len() >= 4
    &&& prefix_char(s, 0) == '\\'
    &&& prefix_char(s, 1) == '\\'
    &&& prefix_char(s, 2) == '?'
    &&& prefix_char(s, 3) == '\\'
}

/// A separator: `\`, and also `/` outside verbatim paths.
pub open spec fn is_sep(c: char, verbatim: bool) -> bool {
    c == '\\' || (!verbatim && c == '/')
}

/// Where the component that starts at `from` ends: the next separator, or
/// the end of `s`.
pub open spec fn component_end(s: Seq<char>, from: int, verbatim: bool) -> int
    decreases s.len() - from,
{
    if from >= s.len() {
        s.len() as int
    } else if is_sep(s[from], verbatim) {
        from
    } else {
        component_end(s, from + 1, verbatim)
    }
}

pub open spec fn is_ascii_letter(c: char) -> bool {
    ('a' <= c && c <= 'z') || ('A' <= c && c <= 'Z')
}

/// The end of a two-component prefix whose first component starts at
/// `from` (`server\share`): after the second component where both are
/// there; otherwise `none`, or the end of the first where `one_is_enough`.
pub open spec fn two_components_end(s: Seq<char>, from: int, verbatim: bool, one_is_enough: bool) -> int {
    let first_end = component_end(s, from, verbatim);
    let second_end = component_end(s, first_end + 1, verbatim);
    if first_end < s.len() && second_end > first_end + 1 && (one_is_enough || first_end > from) {
        second_end
    } else if one_is_enough {
        first_end
    } else {
        0
    }
}

/// The length of the prefix of `s` (0 where it has none).
pub open spec fn prefix_len(s: Seq<char>) -> int {
    if s.len() >= 2 && prefix_char(s, 0) == '\\' && prefix_char(s, 1) == '\\' {
        if starts_verbatim(s) {
            if s.len() >= 8 && prefix_char(s, 4) == 'U' && prefix_char(s, 5) == 'N' && prefix_char(s, 6) == 'C'
                && prefix_char(s, 7) == '\\' {
                two_components_end(s, 8, true, true)
            } else {
                component_end(s, 4, true)
            }
        } else if s.len() >= 4 && prefix_char(s, 2) == '.' && prefix_char(s, 3) == '\\' {
            component_end(s, 4, false)
        } else {
            two_components_end(s, 2, false, false)
        }
    } else if s.len() >= 2 && s[1] == ':' && is_ascii_letter(s[0]) {
        2
    } else {
        0
    }
}

/// Where the last component of `s[p..n]` ends, once trailing separators and
/// (outside verbatim paths) trailing `.` components are dropped.
pub open spec fn trim_end(s: Seq<char>, p: int, n: int, verbatim: bool) -> int
    decreases n - p,
{
    if n <= p {
        p
    } else if is_sep(s[n - 1], verbatim) {
        trim_end(s, p, n - 1, verbatim)
    } else if !verbatim && s[n - 1] == '.' && (n - 1 == p || is_sep(s[n - 2], verbatim)) {
        trim_end(s, p, n - 1, verbatim)
    } else {
        n
    }
}

/// Whether the last component of the path `dir` is `data`.
pub open spec fn names_data_dir(dir: Seq<char>) -> bool {
    let p = prefix_len(dir);
    let vb = starts_verbatim(dir);
    let e = trim_end(dir, p, dir.len() as int, vb);
    &&& e - 4 >= p
    &&& dir.subrange(e - 4, e) == data_dir_name()
    &&& (e - 4 == p || is_sep(dir[e - 5], vb))
}

fn chars_of(s: &str) -> (v: Vec<char>)
    ensures
        v@ == s@,
{
    let len = s.unicode_len();
    let mut v: Vec<char> = Vec::new();
    let mut i: usize = 0;
    while i < len
        invariant
            i <= len,
            len == s@.len(),
            v@ == s@.subrange(0, i as int),
        decreases len - i,
    {
        v.push(s.get_char(i));
        assert(v@ =~= s@.subrange(0, i + 1));
        i = i + 1;
    }
    assert(s@.subrange(0, len as int) =~= s@);
    v
}

fn is_sep_exec(c: char, verbatim: bool) -> (b: bool)
    ensures
        b == is_sep(c, verbatim),
{
    c == '\\' || (!verbatim && c == '/')
}

fn prefix_char_exec(v: &Vec<char>, i: usize) -> (c: char)
    requires
        i < v@.len(),
    ensures
        c == prefix_char(v@, i as int),
{
    if i < 8 && v[i] == '/' {
        '\\'
    } else {
        v[i]
    }
}

fn component_end_exec(v: &Vec<char>, from: usize, verbatim: bool) -> (e: usize)
    requires
        from <= v@.len(),
    ensures
        e == component_end(v@, from as int, verbatim),
        from <= e <= v@.len(),
{
    let mut i = from;
    while i < v.len()
        invariant
            from <= i <= v@.len(),
            component_end(v@, i as int, verbatim) == component_end(v@, from as int, verbatim),
        decreases v@.len() - i,
    {
        if is_sep_exec(v[i], verbatim) {
            return i;
        }
        i = i + 1;
    }
    i
}

proof fn lemma_component_end_bounds(s: Seq<char>, from: int, verbatim: bool)
    requires
        0 <= from,
    ensures
        from <= s.len() ==> from <= component_end(s, from, verbatim) <= s.len(),
        from > s.len() ==> component_end(s, from, verbatim) == s.len(),
    decreases s.len() - from,
{
    if from < s.len() {
        lemma_component_end_bounds(s, from + 1, verbatim);
    }
}

fn two_components_end_exec(v: &Vec<char>, from: usize, verbatim: bool, one_is_enough: bool) -> (e: usize)
    requires
        from <= v@.len(),
    ensures
        e == two_components_end(v@, from as int, verbatim, one_is_enough),
        e <= v@.len(),
{
    let first_end = component_end_exec(v, from, verbatim);
    if first_end < v.len() {
        let second_end = component_end_exec(v, first_end + 1, verbatim);
        if second_end > first_end + 1 && (one_is_enough || first_end > from) {
            return second_end;
        }
    } else {
        proof {
            lemma_component_end_bounds(v@, first_end + 1, verbatim);
        }
    }
    if one_is_enough {
        first_end
    } else {
        0
    }
}

fn prefix_len_exec(v: &Vec<char>) -> (p: usize)
    ensures
        p == prefix_len(v@),
        p <= v@.len(),
{
    let n = v.len();
    if n >= 2 && prefix_char_exec(v, 0) == '\\' && prefix_char_exec(v, 1) == '\\' {
        if n >= 4 && prefix_char_exec(v, 2) == '?' && prefix_char_exec(v, 3) == '\\' {
            if n >= 8 && prefix_char_exec(v, 4) == 'U' && prefix_char_exec(v, 5) == 'N' && prefix_char_exec(v, 6)
                == 'C' && prefix_char_exec(v, 7) == '\\' {
                two_components_end_exec(v, 8, true, true)
            } else {
                component_end_exec(v, 4, true)
            }
        } else if n >= 4 && prefix_char_exec(v, 2) == '.' && prefix_char_exec(v, 3) == '\\' {
            component_end_exec(v, 4, false)
        } else {
            two_components_end_exec(v, 2, false, false)
        }
    } else if n >= 2 && v[1] == ':' && ((v[0] >= 'a' && v[0] <= 'z') || (v[0] >= 'A' && v[0] <= 'Z')) {
        2
    } else {
        0
    }
}

fn verbatim_exec(v: &Vec<char>) -> (b: bool)
    ensures
        b == starts_verbatim(v@),
{
    v.len() >= 4 && prefix_char_exec(v, 0) == '\\' && prefix_char_exec(v, 1) == '\\' && prefix_char_exec(v, 2)
        == '?' && prefix_char_exec(v, 3) == '\\'
}

/// Whether the working directory `dir` is the game's `data` directory (its
/// last component is `data`), which the game switches to once it is ready
/// for the mods.
pub fn in_data_dir(dir: &str) -> (b: bool)
    ensures
        b == names_data_dir(dir@),
{
    let v = chars_of(dir);
    let p = prefix_len_exec(&v);
    let vb = verbatim_exec(&v);
    let len = v.len();
    let mut n: usize = len;
    while n > p
        invariant
            p <= n <= len,
            len == v@.len(),
            trim_end(v@, p as int, n as int, vb) == trim_end(v@, p as int, len as int, vb),
        ensures
            p <= n <= len,
            trim_end(v@, p as int, n as int, vb) == trim_end(v@, p as int, len as int, vb),
            trim_end(v@, p as int, n as int, vb) == n,
        decreases n,
    {
        let c = v[n - 1];
        if is_sep_exec(c, vb) {
            n = n - 1;
        } else if !vb && c == '.' && (n - 1 == p || is_sep_exec(v[n - 2], vb)) {
            n = n - 1;
        } else {
            break;
        }
    }
    let name = "data";
    proof {
        reveal_strlit("data");
        assert(name@ =~= data_dir_name());
    }
    if n < 4 || n - 4 < p {
        return false;
    }
    let start = n - 4;
    let mut i: usize = 0;
    while i < 4
        invariant
            i <= 4,
            name@ == data_dir_name(),
            start == n - 4,
            n <= len,
            len == v@.len(),
            trim_end(v@, p as int, len as int, vb) == n,
            start >= p,
            v@ == dir@,
            p == prefix_len(v@),
            vb == starts_verbatim(v@),
            forall|j: int| 0 <= j < i ==> #[trigger] v@[start + j] == data_dir_name()[j],
        decreases 4 - i,
    {
        if v[start + i] != name.get_char(i) {
            proof {
                let sub = v@.subrange(start as int, n as int);
                assert(sub[i as int] == v@[start + i]);
                assert(sub != data_dir_name());
            }
            return false;
        }
        i = i + 1;
    }
    proof {
        let sub = v@.subrange(start as int, n as int);
        assert forall|j: int| 0 <= j < 4 implies sub[j] == data_dir_name()[j] by {
            assert(v@[start + j] == data_dir_name()[j]);
        }
        assert(sub =~= data_dir_name());
    }
    start == p || is_sep_exec(v[start - 1], vb)
}

/// Where the component that ends at `e` starts: after the last separator
/// in `s[p..e]`, or at `p`.
pub open spec fn component_start(s: Seq<char>, p: int, e: int, verbatim: bool) -> int
    decreases e - p,
{
    if e <= p {
        p
    } else if is_sep(s[e - 1], verbatim) {
        e
    } else {
        component_start(s, p, e - 1, verbatim)
    }
}

/// The file name of the path `s`: its last component where that is a
/// name (not `.` or `..`, and not a bare prefix or root).
pub open spec fn file_name(s: Seq<char>) -> Option<Seq<char>> {
    let p = prefix_len(s);
    let vb = starts_verbatim(s);
    let e = trim_end(s, p, s.len() as int, vb);
    let name = s.subrange(component_start(s, p, e, vb), e);
    if e <= p || name == seq!['.'] || name == seq!['.', '.'] {
        None
    } else {
        Some(name)
    }
}

/// The position of the last `.` in `name`, or -1.
pub open spec fn last_dot(name: Seq<char>) -> int
    decreases name.len(),
{
    if name.len() == 0 {
        -1
    } else if name.last() == '.' {
        name.len() - 1
    } else {
        last_dot(name.drop_last())
    }
}

/// The stem of a file name: the name before its last `.`, or the whole
/// name where it has no `.` or its only `.` leads.
pub open spec fn stem_of_name(name: Seq<char>) -> Seq<char> {
    let d = last_dot(name);
    if d <= 0 {
        name
    } else {
        name.subrange(0, d)
    }
}

/// The file stem of the path `s`, where it has a file name.
pub open spec fn file_stem(s: Seq<char>) -> Option<Seq<char>> {
    match file_name(s) {
        Some(name) => Some(stem_of_name(name)),
        None => None,
    }
}

proof fn lemma_last_dot(name: Seq<char>, n: int)
    requires
        0 <= n <= name.len(),
        forall|j: int| n <= j < name.len() ==> #[trigger] name[j] != '.',
    ensures
        last_dot(name) == last_dot(name.subrange(0, n)),
    decreases name.len(),
{
    if name.len() > n {
        let p = name.drop_last();
        assert forall|j: int| n <= j < p.len() implies #[trigger] p[j] != '.' by {
            assert(p[j] == name[j]);
        }
        lemma_last_dot(p, n);
        assert(p.subrange(0, n) =~= name.subrange(0, n));
    } else {
        assert(name.subrange(0, n) =~= name);
    }
}

/// The file stem of `path`, as `Path::file_stem` gives it on Windows: the
/// key under which a found mod file is configured.
pub fn path_file_stem(path: &str) -> (stem: Option<String>)
    ensures
        match stem {
            Some(s) => file_stem(path@) == Some(s@),
            None => file_stem(path@) is None,
        },
{
    let v = chars_of(path);
    let p = prefix_len_exec(&v);
    let vb = verbatim_exec(&v);
    let len = v.len();
    let mut e: usize = len;
    while e > p
        invariant
            p <= e <= len,
            len == v@.len(),
            trim_end(v@, p as int, e as int, vb) == trim_end(v@, p as int, len as int, vb),
        ensures
            p <= e <= len,
            trim_end(v@, p as int, e as int, vb) == trim_end(v@, p as int, len as int, vb),
            trim_end(v@, p as int, e as int, vb) == e,
        decreases e,
    {
        let c = v[e - 1];
        if is_sep_exec(c, vb) {
            e = e - 1;
        } else if !vb && c == '.' && (e - 1 == p || is_sep_exec(v[e - 2], vb)) {
            e = e - 1;
        } else {
            break;
        }
    }
    if e == p {
        return None;
    }
    let mut b: usize = e;
    while b > p
        invariant
            p <= b <= e,
            e <= len,
            len == v@.len(),
            component_start(v@, p as int, b as int, vb) == component_start(v@, p as int, e as int, vb),
        ensures
            p <= b <= e,
            component_start(v@, p as int, b as int, vb) == component_start(v@, p as int, e as int, vb),
            component_start(v@, p as int, b as int, vb) == b,
        decreases b,
    {
        if is_sep_exec(v[b - 1], vb) {
            break;
        }
        b = b - 1;
    }
    let ghost name = v@.subrange(b as int, e as int);
    if e - b == 1 && v[b] == '.' {
        assert(name =~= seq!['.']);
        return None;
    }
    if e - b == 2 && v[b] == '.' && v[b + 1] == '.' {
        assert(name =~= seq!['.', '.']);
        return None;
    }
    proof {
        assert(name.len() == e - b);
        if e - b >= 1 {
            assert(name[0] == v@[b as int]);
        }
        if e - b >= 2 {
            assert(name[1] == v@[b + 1]);
        }
        assert(name != seq!['.']);
        assert(name != seq!['.', '.']);
    }
    let mut d: usize = e;
    while d > b
        invariant
            b <= d <= e,
            e <= len,
            len == v@.len(),
            name == v@.subrange(b as int, e as int),
            forall|j: int| d <= j < e ==> #[trigger] v@[j] != '.',
        ensures
            b <= d <= e,
            forall|j: int| d <= j < e ==> #[trigger] v@[j] != '.',
            d == b || v@[d - 1] == '.',
        decreases d,
    {
        if v[d - 1] == '.' {
            break;
        }
        d = d - 1;
    }
    proof {
        let k = (d - b) as int;
        assert forall|j: int| k <= j < name.len() implies #[trigger] name[j] != '.' by {
            assert(name[j] == v@[b + j]);
        }
        lemma_last_dot(name, k);
        let pre = name.subrange(0, k);
        if k > 0 {
            assert(pre.last() == v@[d - 1]);
            assert(last_dot(pre) == k - 1);
        } else {
            assert(pre.len() == 0);
        }
    }
    let stem_end = if d - b <= 1 { e } else { d - 1 };
    let out = String::from_str(path.substring_char(b, stem_end));
    proof {
        let k = (d - b) as int;
        if d - b <= 1 {
            assert(out@ =~= name);
        } else {
            assert(out@ =~= name.subrange(0, k - 1));
        }
    }
    Some(out)
}

/// A path that ends with a separator, with no characters but name
/// characters after it.
proof fn lemma_trim_end_keeps_name(s: Seq<char>, p: int, q: int, vb: bool)
    requires
        0 <= p <= q < s.len(),
        q >= 1 ==> s[q - 1] == '\\',
        forall|j: int| q <= j < s.len() ==> !is_sep(#[trigger] s[j], false),
        !(s.len() - q == 1 && s[q] == '.'),
        s[s.len() - 1] == '.' ==> s.len() - q >= 2,
    ensures
        trim_end(s, p, s.len() as int, vb) == s.len(),
        component_start(s, p, s.len() as int, vb) == q,
{
    let n = s.len() as int;
    assert(!is_sep(s[n - 1], false));
    assert(!is_sep(s[n - 1], vb));
    if s[n - 1] == '.' {
        assert(n - 2 >= q);
        assert(!is_sep(s[n - 2], false));
    }
    lemma_component_start(s, p, q, n, vb);
}

proof fn lemma_component_start(s: Seq<char>, p: int, q: int, e: int, vb: bool)
    requires
        0 <= p <= q <= e <= s.len(),
        q == p || is_sep(s[q - 1], vb),
        forall|j: int| q <= j < s.len() ==> !is_sep(#[trigger] s[j], false),
    ensures
        component_start(s, p, e, vb) == q,
    decreases e - q,
{
    if e > q {
        assert(!is_sep(s[e - 1], false));
        lemma_component_start(s, p, q, e - 1, vb);
    }
}

proof fn lemma_prefix_len_bounds(s: Seq<char>)
    ensures
        0 <= prefix_len(s) <= s.len(),
{
    lemma_component_end_bounds(s, 2, false);
    lemma_component_end_bounds(s, 4, false);
    lemma_component_end_bounds(s, 4, true);
    lemma_component_end_bounds(s, 8, true);
    let a = component_end(s, 2, false);
    lemma_component_end_bounds(s, a + 1, false);
    let b = component_end(s, 8, true);
    lemma_component_end_bounds(s, b + 1, true);
}

/// Any path that ends with `\data`, where `data` is not part of the
/// path's prefix, names the data directory, whatever comes before it.
pub proof fn law_data_dir_after_separator(q: Seq<char>)
    requires
        q.len() > 0,
        q.last() == '\\',
        prefix_len(q + data_dir_name()) <= q.len(),
    ensures
        names_data_dir(q + data_dir_name()),
{
    let s = q + data_dir_name();
    let p = prefix_len(s);
    let vb = starts_verbatim(s);
    assert forall|j: int| q.len() <= j < s.len() implies !is_sep(#[trigger] s[j], false) by {
        assert(s[j] == data_dir_name()[j - q.len()]);
    }
    assert(s[q.len() - 1] == '\\');
    lemma_prefix_len_bounds(s);
    lemma_trim_end_keeps_name(s, p, q.len() as int, vb);
    assert(s.subrange(s.len() - 4, s.len() as int) =~= data_dir_name());
}

/// A path whose last component is a name other than `data` does not name
/// the data directory.
pub proof fn law_other_names_are_not_data(q: Seq<char>, name: Seq<char>)
    requires
        q.len() > 0,
        q.last() == '\\',
        prefix_len(q + name) <= q.len(),
        name.len() > 0,
        forall|j: int| 0 <= j < name.len() ==> !is_sep(#[trigger] name[j], false),
        name != seq!['.'],
        name.last() == '.' ==> name.len() >= 2,
        name != data_dir_name(),
    ensures
        !names_data_dir(q + name),
{
    let s = q + name;
    let p = prefix_len(s);
    let vb = starts_verbatim(s);
    let n = s.len() as int;
    assert forall|j: int| q.len() <= j < s.len() implies !is_sep(#[trigger] s[j], false) by {
        assert(s[j] == name[j - q.len()]);
    }
    assert(s[q.len() - 1] == '\\');
    if name.len() == 1 {
        assert(s[n - 1] == name[0]);
        assert(name =~= seq![name[0]]);
    }
    lemma_prefix_len_bounds(s);
    lemma_trim_end_keeps_name(s, p, q.len() as int, vb);
    if names_data_dir(s) {
        if name.len() == 4 {
            assert(s.subrange(n - 4, n) =~= name);
        } else if name.len() < 4 {
            assert(s.subrange(n - 4, n)[4 - name.len() - 1] == s[q.len() - 1]);
        } else {
            assert(n - 4 > q.len());
            assert(!is_sep(s[n - 5], false));
        }
    }
}

/// A file name with an extension keys its mod by the name before the last
/// dot, whatever folder holds it.
pub proof fn law_stem_drops_the_extension(q: Seq<char>, name: Seq<char>, ext: Seq<char>)
    requires
        q.len() > 0,
        q.last() == '\\',
        prefix_len(q + name + seq!['.'] + ext) <= q.len(),
        name.len() > 0,
        forall|j: int| 0 <= j < name.len() ==> !is_sep(#[trigger] name[j], false),
        forall|j: int| 0 <= j < ext.len() ==> !is_sep(#[trigger] ext[j], false) && ext[j] != '.',
        !(name == seq!['.'] && ext.len() == 0),
    ensures
        file_stem(q + name + seq!['.'] + ext) == Some(name),
{
    let file = name + seq!['.'] + ext;
    let s = q + name + seq!['.'] + ext;
    assert(s =~= q + file);
    let p = prefix_len(s);
    let vb = starts_verbatim(s);
    let n = s.len() as int;
    let k = (q.len() + name.len()) as int;
    assert(s[k] == '.');
    assert forall|j: int| q.len() <= j < s.len() implies !is_sep(#[trigger] s[j], false) by {
        if j < k {
            assert(s[j] == name[j - q.len()]);
        } else if j > k {
            assert(s[j] == ext[j - k - 1]);
        }
    }
    assert(s[q.len() - 1] == '\\');
    if s[n - 1] == '.' {
        assert(ext.len() == 0);
    }
    lemma_prefix_len_bounds(s);
    lemma_trim_end_keeps_name(s, p, q.len() as int, vb);
    let nm = s.subrange(q.len() as int, n);
    assert(nm =~= file);
    assert(file != seq!['.']) by {
        assert(file.len() >= 2);
    }
    assert(file != seq!['.', '.']) by {
        if file == seq!['.', '.'] {
            assert(file.len() == 2);
            assert(name.len() == 1 && ext.len() == 0);
            assert(file[0] == name[0]);
            assert(name =~= seq!['.']);
        }
    }
    assert forall|j: int| name.len() + 1 <= j < file.len() implies #[trigger] file[j] != '.' by {
        assert(file[j] == ext[j - name.len() - 1]);
    }
    lemma_last_dot(file, name.len() + 1int);
    let pre = file.subrange(0, name.len() + 1int);
    assert(pre.last() == '.');
    assert(last_dot(pre) == name.len());
    assert(file.subrange(0, name.len() as int) =~= name);
}

/// A file name without a dot keys its mod by the whole name.
pub proof fn law_stem_of_a_name_without_dot(q: Seq<char>, name: Seq<char>)
    requires
        q.len() > 0,
        q.last() == '\\',
        prefix_len(q + name) <= q.len(),
        name.len() > 0,
        forall|j: int| 0 <= j < name.len() ==> !is_sep(#[trigger] name[j], false) && name[j] != '.',
    ensures
        file_stem(q + name) == Some(name),
{
    let s = q + name;
    let p = prefix_len(s);
    let vb = starts_verbatim(s);
    let n = s.len() as int;
    assert forall|j: int| q.len() <= j < s.len() implies !is_sep(#[trigger] s[j], false) by {
        assert(s[j] == name[j - q.len()]);
    }
    assert(s[q.len() - 1] == '\\');
    assert(s[n - 1] == name[name.len() - 1]);
    lemma_prefix_len_bounds(s);
    lemma_trim_end_keeps_name(s, p, q.len() as int, vb);
    assert(s.subrange(q.len() as int, n) =~= name);
    assert(name[0] != '.');
    assert(name != seq!['.']);
    assert(name != seq!['.', '.']);
    lemma_last_dot(name, 0);
    assert(name.subrange(0, 0) =~= Seq::<char>::empty());
}
} // verus!
