use vstd::prelude::*;

verus! {

/// The views of a vector of strings.
pub open spec fn views(v: Seq<String>) -> Seq<Seq<char>> {
    v.map_values(|x: String| x@)
}

/// Index of the first `\n` at or after `i`, or the length when there is none.
pub open spec fn line_end(s: Seq<char>, i: int) -> int
    decreases s.len() - i,
{
    if i < 0 || i >= s.len() || s[i] == '\n' {
        i
    } else {
        line_end(s, i + 1)
    }
}

/// The line that starts at `i` and ends at `e`: a `\r` before the `\n` is dropped.
pub open spec fn line_at(s: Seq<char>, i: int, e: int) -> Seq<char> {
    let raw = s.subrange(i, e);
    if e < s.len() && raw.len() > 0 && raw.last() == '\r' {
        raw.drop_last()
    } else {
        raw
    }
}

/// The lines of `s` from index `i` on, as `str::lines` yields them.
pub open spec fn lines_from(s: Seq<char>, i: int) -> Seq<Seq<char>>
    decreases s.len() + 1 - i,
{
    if i < 0 || i >= s.len() {
        Seq::empty()
    } else {
        let e = if line_end(s, i) < i || line_end(s, i) > s.len() {
            i
        } else {
            line_end(s, i)
        };
        seq![line_at(s, i, e)] + lines_from(s, e + 1)
    }
}

/// The lines of `s`: split at `\n` or `\r\n`; the last line ending is optional.
pub open spec fn lines(s: Seq<char>) -> Seq<Seq<char>> {
    lines_from(s, 0)
}

/// The lines joined with `\n` between them.
pub open spec fn joined(ls: Seq<Seq<char>>) -> Seq<char>
    decreases ls.len(),
{
    if ls.len() == 0 {
        Seq::empty()
    } else if ls.len() == 1 {
        ls[0]
    } else {
        joined(ls.drop_last()) + seq!['\n'] + ls.last()
    }
}

/// The characters that `char::is_whitespace` accepts.
pub open spec fn is_white(c: char) -> bool {
    c == ' ' || ('\t' <= c && c <= '\r') || c == '\u{85}' || c == '\u{A0}' || c == '\u{1680}'
        || ('\u{2000}' <= c && c <= '\u{200A}') || c == '\u{2028}' || c == '\u{2029}' || c
        == '\u{202F}' || c == '\u{205F}' || c == '\u{3000}'
}

pub open spec fn trim_start_white(s: Seq<char>) -> Seq<char>
    decreases s.len(),
{
    if s.len() > 0 && is_white(s[0]) {
        trim_start_white(s.skip(1))
    } else {
        s
    }
}

pub open spec fn trim_end_white(s: Seq<char>) -> Seq<char>
    decreases s.len(),
{
    if s.len() > 0 && is_white(s.last()) {
        trim_end_white(s.drop_last())
    } else {
        s
    }
}

/// `str::trim`: white space cut from both ends.
pub open spec fn trimmed(s: Seq<char>) -> Seq<char> {
    trim_end_white(trim_start_white(s))
}

pub fn is_white_char(c: char) -> (r: bool)
    ensures
        r == is_white(c),
{
    c == ' ' || ('\t' <= c && c <= '\r') || c == '\u{85}' || c == '\u{A0}' || c == '\u{1680}'
        || ('\u{2000}' <= c && c <= '\u{200A}') || c == '\u{2028}' || c == '\u{2029}' || c
        == '\u{202F}' || c == '\u{205F}' || c == '\u{3000}'
}

/// Whether two strings hold the same characters.
pub fn str_eq(a: &str, b: &str) -> (r: bool)
    ensures
        r == (a@ == b@),
{
    let n = a.unicode_len();
    if n != b.unicode_len() {
        return false;
    }
    let mut i: usize = 0;
    while i < n
        invariant
            n == a@.len(),
            n == b@.len(),
            i <= n,
            a@.take(i as int) == b@.take(i as int),
        decreases n - i,
    {
        if a.get_char(i) != b.get_char(i) {
            assert(a@[i as int] != b@[i as int]);
            return false;
        }
        assert(a@.take(i + 1) =~= b@.take(i + 1));
        i = i + 1;
    }
    assert(a@ =~= a@.take(n as int));
    assert(b@ =~= b@.take(n as int));
    true
}

/// Whether `s` ends with `c`.
pub fn ends_with_char(s: &str, c: char) -> (r: bool)
    ensures
        r == (s@.len() > 0 && s@.last() == c),
{
    let n = s.unicode_len();
    n > 0 && s.get_char(n - 1) == c
}

/// `s` with white space cut from both ends.
pub fn trim(s: &str) -> (r: String)
    ensures
        r@ == trimmed(s@),
{
    let n = s.unicode_len();
    let mut start: usize = 0;
    assert(s@.skip(0) =~= s@);
    while start < n && is_white_char(s.get_char(start))
        invariant
            n == s@.len(),
            start <= n,
            trim_start_white(s@.skip(start as int)) == trim_start_white(s@),
        decreases n - start,
    {
        assert(s@.skip(start as int).skip(1) =~= s@.skip(start + 1));
        start = start + 1;
    }
    let mut end: usize = n;
    assert(s@.subrange(start as int, n as int) =~= s@.skip(start as int));
    while end > start && is_white_char(s.get_char(end - 1))
        invariant
            n == s@.len(),
            start <= end <= n,
            trim_end_white(s@.subrange(start as int, end as int)) == trim_end_white(
                trim_start_white(s@),
            ),
        decreases end,
    {
        assert(s@.subrange(start as int, end as int).drop_last() =~= s@.subrange(
            start as int,
            end - 1,
        ));
        end = end - 1;
    }
    String::from_str(s.substring_char(start, end))
}

/// Index of the first `\n` at or after `i`, or the length.
fn find_line_end(s: &str, n: usize, i: usize) -> (e: usize)
    requires
        n == s@.len(),
        i <= n,
    ensures
        i <= e <= n,
        e == line_end(s@, i as int),
        e < n ==> s@[e as int] == '\n',
{
    let mut j = i;
    while j < n && s.get_char(j) != '\n'
        invariant
            n == s@.len(),
            i <= j <= n,
            line_end(s@, i as int) == line_end(s@, j as int),
        decreases n - j,
    {
        j = j + 1;
    }
    j
}

/// The lines of `s`, as `str::lines` yields them.
pub fn split_lines(s: &str) -> (r: Vec<String>)
    ensures
        views(r@) == lines(s@),
{
    let n = s.unicode_len();
    let mut r: Vec<String> = Vec::new();
    let mut i: usize = 0;
    while i < n
        invariant
            n == s@.len(),
            i <= n,
            views(r@) + lines_from(s@, i as int) == lines(s@),
        decreases n - i,
    {
        let e = find_line_end(s, n, i);
        let line = if e < n && e > i && s.get_char(e - 1) == '\r' {
            String::from_str(s.substring_char(i, e - 1))
        } else {
            String::from_str(s.substring_char(i, e))
        };
        assert(line@ == line_at(s@, i as int, e as int));
        let ghost old_r = r@;
        r.push(line);
        assert(views(r@) =~= views(old_r) + seq![line_at(s@, i as int, e as int)]);
        assert(views(r@) + lines_from(s@, e + 1) =~= views(old_r) + lines_from(s@, i as int));
        if e < n {
            i = e + 1;
        } else {
            assert(lines_from(s@, e + 1) =~= Seq::<Seq<char>>::empty());
            i = n;
        }
    }
    assert(lines_from(s@, i as int) == Seq::<Seq<char>>::empty());
    assert(views(r@) + Seq::<Seq<char>>::empty() =~= views(r@));
    r
}

/// The strings joined with `\n` between them.
pub fn join_lines(ls: &Vec<String>) -> (r: String)
    ensures
        r@ == joined(views(ls@)),
{
    let mut r = String::new();
    let mut i: usize = 0;
    while i < ls.len()
        invariant
            i <= ls.len(),
            r@ == joined(views(ls@).take(i as int)),
        decreases ls.len() - i,
    {
        let ghost t = views(ls@).take(i + 1);
        assert(t.drop_last() =~= views(ls@).take(i as int));
        if i > 0 {
            proof {
                reveal_strlit("\n");
            }
            r.append("\n");
        }
        r.append(ls[i].as_str());
        assert(r@ =~= joined(t));
        i = i + 1;
    }
    assert(views(ls@).take(ls.len() as int) =~= views(ls@));
    r
}

/// `s` holds no `\n`.
pub open spec fn no_newline(s: Seq<char>) -> bool {
    forall|k: int| 0 <= k < s.len() ==> s[k] != '\n'
}

/// `s` holds no `\r`.
pub open spec fn no_cr(s: Seq<char>) -> bool {
    forall|k: int| 0 <= k < s.len() ==> s[k] != '\r'
}

/// `x` without its last character when that is a `\n`.
pub open spec fn strip_one_newline(x: Seq<char>) -> Seq<char> {
    if x.len() > 0 && x.last() == '\n' {
        x.drop_last()
    } else {
        x
    }
}

pub proof fn lemma_line_end_facts(s: Seq<char>, i: int)
    requires
        0 <= i <= s.len(),
    ensures
        i <= line_end(s, i) <= s.len(),
        forall|k: int| i <= k < line_end(s, i) ==> s[k] != '\n',
        line_end(s, i) < s.len() ==> s[line_end(s, i)] == '\n',
    decreases s.len() - i,
{
    if i < s.len() && s[i] != '\n' {
        lemma_line_end_facts(s, i + 1);
    }
}

proof fn lemma_line_end_shift(p: Seq<char>, y: Seq<char>, j: int)
    requires
        0 <= j <= y.len(),
    ensures
        line_end(p + y, p.len() + j) == p.len() + line_end(y, j),
    decreases y.len() - j,
{
    if j < y.len() {
        assert((p + y)[p.len() + j] == y[j]);
        if y[j] != '\n' {
            lemma_line_end_shift(p, y, j + 1);
        }
    }
}

/// The lines of `p + y` from inside `y` are those of `y`.
pub proof fn lemma_lines_shift(p: Seq<char>, y: Seq<char>, j: int)
    requires
        0 <= j,
    ensures
        lines_from(p + y, p.len() + j) == lines_from(y, j),
    decreases y.len() + 1 - j,
{
    let s = p + y;
    if j < y.len() {
        lemma_line_end_shift(p, y, j);
        lemma_line_end_facts(y, j);
        lemma_line_end_facts(s, p.len() + j);
        let e = line_end(y, j);
        assert(s.subrange(p.len() + j, p.len() + e) =~= y.subrange(j, e));
        assert(line_at(s, p.len() + j, p.len() + e) == line_at(y, j, e));
        lemma_lines_shift(p, y, e + 1);
    }
}

/// A string without `\n` is one line (when not empty).
pub proof fn lemma_lines_single(x: Seq<char>)
    requires
        no_newline(x),
    ensures
        lines(x) == (if x.len() == 0 {
            Seq::<Seq<char>>::empty()
        } else {
            seq![x]
        }),
{
    if x.len() > 0 {
        lemma_line_end_facts(x, 0);
        if line_end(x, 0) < x.len() {
            assert(x[line_end(x, 0)] != '\n');
        }
        assert(x.subrange(0, x.len() as int) =~= x);
        assert(lines_from(x, x.len() + 1 as int) == Seq::<Seq<char>>::empty());
        assert(lines(x) =~= seq![x]);
    }
}

/// Splitting at a `\n`: the line before it, then the lines after it.
pub proof fn lemma_lines_split(x: Seq<char>, y: Seq<char>)
    requires
        no_newline(x),
        x.len() == 0 || x.last() != '\r',
    ensures
        lines(x + seq!['\n'] + y) == seq![x] + lines(y),
{
    let s = x + seq!['\n'] + y;
    let p = x + seq!['\n'];
    assert(s =~= p + y);
    assert forall|k: int| 0 <= k < x.len() implies s[k] != '\n' by {
        assert(s[k] == x[k]);
    }
    assert(s[x.len() as int] == '\n');
    lemma_line_end_facts(s, 0);
    if line_end(s, 0) < x.len() {
        assert(s[line_end(s, 0)] == x[line_end(s, 0)]);
    }
    assert(line_end(s, 0) == x.len());
    assert(s.subrange(0, x.len() as int) =~= x);
    assert(line_at(s, 0, x.len() as int) == x);
    lemma_lines_shift(p, y, 0);
    assert(lines(s) =~= seq![x] + lines(y));
}

/// Lines of a text that ends a line, followed by more text.
pub proof fn lemma_lines_concat(h: Seq<char>, r: Seq<char>)
    requires
        h.len() == 0 || h.last() == '\n',
        no_cr(h),
    ensures
        lines(h + r) == lines(h) + lines(r),
    decreases h.len(),
{
    if h.len() == 0 {
        assert(h + r =~= r);
        assert(lines(h) =~= Seq::<Seq<char>>::empty());
        assert(lines(h) + lines(r) =~= lines(r));
    } else {
        lemma_line_end_facts(h, 0);
        let k = line_end(h, 0);
        assert(k < h.len()) by {
            if k == h.len() {
                assert(h[h.len() - 1] == '\n');
            }
        }
        let x = h.take(k);
        let h2 = h.skip(k + 1);
        assert(h =~= x + seq!['\n'] + h2);
        assert(no_newline(x));
        assert(x.len() == 0 || x.last() != '\r') by {
            if x.len() > 0 {
                assert(x.last() == h[k - 1]);
            }
        }
        assert(h2.len() == 0 || h2.last() == '\n') by {
            if h2.len() > 0 {
                assert(h2.last() == h.last());
            }
        }
        assert(no_cr(h2)) by {
            assert forall|i: int| 0 <= i < h2.len() implies h2[i] != '\r' by {
                assert(h2[i] == h[k + 1 + i]);
            }
        }
        lemma_lines_split(x, h2);
        assert(h + r =~= x + seq!['\n'] + (h2 + r));
        lemma_lines_split(x, h2 + r);
        lemma_lines_concat(h2, r);
        assert(lines(h + r) =~= lines(h) + lines(r));
    }
}

proof fn lemma_joined_front(l: Seq<char>, ls: Seq<Seq<char>>)
    requires
        ls.len() > 0,
    ensures
        joined(seq![l] + ls) == l + seq!['\n'] + joined(ls),
    decreases ls.len(),
{
    let t = seq![l] + ls;
    assert(t.last() == ls.last());
    if ls.len() == 1 {
        assert(t.drop_last() =~= seq![l]);
        assert(joined(seq![l]) == l);
        assert(joined(ls) == ls[0]);
        assert(ls.last() == ls[0]);
        assert(joined(t) == joined(t.drop_last()) + seq!['\n'] + t.last());
    } else {
        assert(t.drop_last() =~= seq![l] + ls.drop_last());
        lemma_joined_front(l, ls.drop_last());
        assert(joined(t) == joined(t.drop_last()) + seq!['\n'] + t.last());
        assert(joined(ls) == joined(ls.drop_last()) + seq!['\n'] + ls.last());
        assert(joined(t) =~= l + seq!['\n'] + joined(ls));
    }
}

/// Joining the lines gives the text back, but for one final `\n`.
pub proof fn lemma_joined_lines(x: Seq<char>)
    requires
        no_cr(x),
    ensures
        joined(lines(x)) == strip_one_newline(x),
    decreases x.len(),
{
    if no_newline(x) {
        lemma_lines_single(x);
        if x.len() > 0 {
            assert(x.last() == x[x.len() - 1]);
        }
    } else {
        lemma_line_end_facts(x, 0);
        let k = line_end(x, 0);
        assert(k < x.len());
        let l = x.take(k);
        let y = x.skip(k + 1);
        assert(x =~= l + seq!['\n'] + y);
        assert(no_newline(l));
        assert(l.len() == 0 || l.last() != '\r') by {
            if l.len() > 0 {
                assert(l.last() == x[k - 1]);
            }
        }
        assert(no_cr(y)) by {
            assert forall|i: int| 0 <= i < y.len() implies y[i] != '\r' by {
                assert(y[i] == x[k + 1 + i]);
            }
        }
        lemma_lines_split(l, y);
        if y.len() == 0 {
            assert(lines(y) =~= Seq::<Seq<char>>::empty());
            assert(seq![l] + lines(y) =~= seq![l]);
            assert(x.drop_last() =~= l);
        } else {
            lemma_joined_lines(y);
            assert(lines(y).len() > 0) by {
                lemma_line_end_facts(y, 0);
            }
            lemma_joined_front(l, lines(y));
            assert(x.last() == y.last());
            assert(strip_one_newline(x) =~= l + seq!['\n'] + strip_one_newline(y));
        }
    }
}

/// `pat` occurs in `s`.
pub open spec fn occurs(s: Seq<char>, pat: Seq<char>) -> bool {
    exists|i: int|
        0 <= i && i + pat.len() <= s.len() && #[trigger] s.subrange(i, i + pat.len()) == pat
}

/// Whether `pat` occurs in `s`.
pub fn contains_text(s: &str, pat: &str) -> (r: bool)
    ensures
        r == occurs(s@, pat@),
{
    let n = s.unicode_len();
    let m = pat.unicode_len();
    if m > n {
        return false;
    }
    let mut i: usize = 0;
    while i <= n - m
        invariant
            n == s@.len(),
            m == pat@.len(),
            m <= n,
            i <= n - m + 1,
            forall|j: int| 0 <= j < i ==> #[trigger] s@.subrange(j, j + m) != pat@,
        decreases n - m + 1 - i,
    {
        if str_eq(s.substring_char(i, i + m), pat) {
            return true;
        }
        if i == n - m {
            return false;
        }
        i = i + 1;
    }
    false
}

/// Every line is free of `\n` and `\r`.
pub open spec fn plain_lines(ls: Seq<Seq<char>>) -> bool {
    forall|i: int| 0 <= i < ls.len() ==> no_newline(#[trigger] ls[i]) && no_cr(ls[i])
}

proof fn lemma_lines_from_plain(s: Seq<char>, i: int)
    requires
        no_cr(s),
        0 <= i,
    ensures
        plain_lines(lines_from(s, i)),
    decreases s.len() + 1 - i,
{
    if i < s.len() {
        lemma_line_end_facts(s, i);
        let e = line_end(s, i);
        lemma_lines_from_plain(s, e + 1);
        let l = line_at(s, i, e);
        assert(no_newline(l) && no_cr(l)) by {
            assert forall|k: int| 0 <= k < l.len() implies l[k] != '\n' && l[k] != '\r' by {
                assert(l[k] == s[i + k]);
            }
        }
        let t = lines_from(s, i);
        assert(t == seq![l] + lines_from(s, e + 1));
        assert forall|k: int| 0 <= k < t.len() implies no_newline(#[trigger] t[k]) && no_cr(t[k]) by {
            if k > 0 {
                assert(t[k] == lines_from(s, e + 1)[k - 1]);
            }
        }
    }
}

/// The lines of a text without `\r` are free of `\n` and `\r`.
pub proof fn lemma_lines_plain(s: Seq<char>)
    requires
        no_cr(s),
    ensures
        plain_lines(lines(s)),
{
    lemma_lines_from_plain(s, 0);
}

} // verus!
