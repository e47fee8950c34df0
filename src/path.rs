use vstd::prelude::*;

use crate::error::ShadowError;

verus! {

/// The characters that stand for `c` in an encoded path.
pub open spec fn encode_char(c: char) -> Seq<char> {
    if c == '%' {
        seq!['%', '2', '5']
    } else if c == '/' {
        seq!['%', '2', 'F']
    } else {
        seq![c]
    }
}

/// A path as a flat file name: `%` becomes `%25`, then `/` becomes `%2F`.
pub open spec fn encoded(s: Seq<char>) -> Seq<char>
    decreases s.len(),
{
    if s.len() == 0 {
        Seq::empty()
    } else {
        encode_char(s[0]) + encoded(s.skip(1))
    }
}

/// `%2F` back to `/` and `%25` back to `%`, scanning from the left.
pub open spec fn decoded(t: Seq<char>) -> Seq<char>
    decreases t.len(),
{
    if t.len() == 0 {
        Seq::empty()
    } else if t.len() >= 3 && t[0] == '%' && t[1] == '2' && t[2] == 'F' {
        seq!['/'] + decoded(t.skip(3))
    } else if t.len() >= 3 && t[0] == '%' && t[1] == '2' && t[2] == '5' {
        seq!['%'] + decoded(t.skip(3))
    } else {
        seq![t[0]] + decoded(t.skip(1))
    }
}

pub proof fn lemma_encoded_concat(a: Seq<char>, b: Seq<char>)
    ensures
        encoded(a + b) == encoded(a) + encoded(b),
    decreases a.len(),
{
    if a.len() == 0 {
        assert(a + b =~= b);
        assert(encoded(a) + encoded(b) =~= encoded(b));
    } else {
        assert((a + b)[0] == a[0]);
        assert((a + b).skip(1) =~= a.skip(1) + b);
        lemma_encoded_concat(a.skip(1), b);
        assert(encoded(a + b) =~= encoded(a) + encoded(b));
    }
}

proof fn lemma_encoded_push(s: Seq<char>, i: int)
    requires
        0 <= i < s.len(),
    ensures
        encoded(s.take(i + 1)) == encoded(s.take(i)) + encode_char(s[i]),
{
    assert(s.take(i + 1) =~= s.take(i) + seq![s[i]]);
    lemma_encoded_concat(s.take(i), seq![s[i]]);
    let one = seq![s[i]];
    assert(one.skip(1) =~= Seq::<char>::empty());
    assert(encoded(one.skip(1)) == Seq::<char>::empty());
    assert(encoded(one) =~= encode_char(s[i]));
}

/// Decoding an encoded path gives the path back, for every string.
pub proof fn lemma_decode_encode(s: Seq<char>)
    ensures
        decoded(encoded(s)) == s,
    decreases s.len(),
{
    if s.len() > 0 {
        let c = s[0];
        let rest = encoded(s.skip(1));
        let t = encode_char(c) + rest;
        lemma_decode_encode(s.skip(1));
        if c == '%' || c == '/' {
            assert(t.skip(3) =~= rest);
        } else {
            assert(t.skip(1) =~= rest);
        }
        assert(decoded(t) =~= seq![c] + s.skip(1));
        assert(s =~= seq![c] + s.skip(1));
    }
}

/// Encode a normalized path for use as a file name under `baselines/` and `stash/`.
pub fn encode_path(normalized: &str) -> (r: String)
    ensures
        r@ == encoded(normalized@),
{
    let n = normalized.unicode_len();
    let mut r = String::new();
    let mut i: usize = 0;
    while i < n
        invariant
            n == normalized@.len(),
            i <= n,
            r@ == encoded(normalized@.take(i as int)),
        decreases n - i,
    {
        let c = normalized.get_char(i);
        proof {
            lemma_encoded_push(normalized@, i as int);
        }
        if c == '%' {
            proof {
                reveal_strlit("%25");
            }
            r.append("%25");
        } else if c == '/' {
            proof {
                reveal_strlit("%2F");
            }
            r.append("%2F");
        } else {
            r.append(normalized.substring_char(i, i + 1));
            assert(normalized@.subrange(i as int, i + 1) =~= seq![c]);
        }
        i = i + 1;
    }
    assert(normalized@.take(n as int) =~= normalized@);
    r
}

/// Decode a file name of `baselines/` or `stash/` back to the normalized path.
pub fn decode_path(encoded_name: &str) -> (r: String)
    ensures
        r@ == decoded(encoded_name@),
{
    let t = encoded_name;
    let n = t.unicode_len();
    let mut r = String::new();
    let mut i: usize = 0;
    assert(t@.skip(0) =~= t@);
    while i < n
        invariant
            n == t@.len(),
            i <= n,
            r@ + decoded(t@.skip(i as int)) == decoded(t@),
        decreases n - i,
    {
        let rest = Ghost(t@.skip(i as int));
        let r0 = Ghost(r@);
        let c = t.get_char(i);
        let mut step: usize = 1;
        if c == '%' && n - i > 2 {
            let c1 = t.get_char(i + 1);
            let c2 = t.get_char(i + 2);
            if c1 == '2' && c2 == 'F' {
                proof {
                    reveal_strlit("/");
                }
                r.append("/");
                step = 3;
            } else if c1 == '2' && c2 == '5' {
                proof {
                    reveal_strlit("%");
                }
                r.append("%");
                step = 3;
            }
        }
        if step == 1 {
            r.append(t.substring_char(i, i + 1));
            assert(t@.subrange(i as int, i + 1) =~= seq![c]);
        }
        assert(rest@.skip(step as int) =~= t@.skip(i + step));
        let x = Ghost(r@.skip(r0@.len() as int));
        assert(r@ =~= r0@ + x@);
        assert(decoded(rest@) == x@ + decoded(rest@.skip(step as int)));
        assert(r0@ + decoded(rest@) =~= r@ + decoded(t@.skip(i + step)));
        i = i + step;
    }
    assert(t@.skip(n as int) =~= Seq::<char>::empty());
    assert(r@ + Seq::<char>::empty() =~= r@);
    r
}

/// Platform separators (`\\`) turned into `/`.
pub open spec fn slashed(s: Seq<char>) -> Seq<char> {
    s.map_values(|c: char| if c == '\\' { '/' } else { c })
}

pub open spec fn trim_end_slashes(s: Seq<char>) -> Seq<char>
    decreases s.len(),
{
    if s.len() > 0 && s.last() == '/' {
        trim_end_slashes(s.drop_last())
    } else {
        s
    }
}

pub open spec fn trim_start_slashes(s: Seq<char>) -> Seq<char>
    decreases s.len(),
{
    if s.len() > 0 && s[0] == '/' {
        trim_start_slashes(s.skip(1))
    } else {
        s
    }
}

/// What follows a leading `./`: further `./` pairs and slashes removed.
pub open spec fn strip_after_dot(s: Seq<char>) -> Seq<char>
    decreases s.len(),
{
    if s.len() >= 2 && s[0] == '.' && s[1] == '/' {
        strip_after_dot(s.skip(2))
    } else if s.len() > 0 && s[0] == '/' {
        strip_after_dot(s.skip(1))
    } else {
        s
    }
}

/// Leading `./` sequences removed, as many as there are, with the slashes
/// that follow them (`.//a` is `a`).
pub open spec fn strip_dot_slash(s: Seq<char>) -> Seq<char> {
    if s.len() >= 2 && s[0] == '.' && s[1] == '/' {
        strip_after_dot(s.skip(2))
    } else {
        s
    }
}

/// `s` begins with `/`: an absolute path.
pub open spec fn is_absolute(s: Seq<char>) -> bool {
    s.len() > 0 && s[0] == '/'
}

proof fn lemma_trimmed_not_absolute(s: Seq<char>)
    ensures
        !is_absolute(trim_start_slashes(s)),
        !is_absolute(strip_after_dot(s)),
    decreases s.len(),
{
    if s.len() > 0 {
        lemma_trimmed_not_absolute(s.skip(1));
    }
    if s.len() >= 2 {
        lemma_trimmed_not_absolute(s.skip(2));
    }
}

/// A normalized path is never absolute.
pub proof fn lemma_normalized_relative(input: Seq<char>, root: Seq<char>)
    ensures
        normalized(input, root) matches Some(p) ==> !is_absolute(p),
{
    let p = slashed(input);
    if p.len() > 0 && p[0] == '/' {
        let r = trim_end_slashes(slashed(root));
        let t = trim_start_slashes(p.skip(r.len() as int));
        lemma_trimmed_not_absolute(p.skip(r.len() as int));
        if t.len() >= 2 {
            lemma_trimmed_not_absolute(t.skip(2));
        }
    } else if p.len() >= 2 {
        lemma_trimmed_not_absolute(p.skip(2));
    }
}

/// `p` names `root` itself or something below it.
pub open spec fn lies_under(p: Seq<char>, root: Seq<char>) -> bool {
    root.is_prefix_of(p) && (p.len() == root.len() || p[root.len() as int] == '/')
}

/// The repository-relative form of a user-supplied path, or `None` when an
/// absolute path lies outside the root.
pub open spec fn normalized(input: Seq<char>, root: Seq<char>) -> Option<Seq<char>> {
    let p = slashed(input);
    if p.len() > 0 && p[0] == '/' {
        let r = trim_end_slashes(slashed(root));
        if lies_under(p, r) {
            Some(strip_dot_slash(trim_start_slashes(p.skip(r.len() as int))))
        } else {
            None
        }
    } else {
        Some(strip_dot_slash(p))
    }
}

fn to_forward_slashes(s: &str) -> (r: String)
    ensures
        r@ == slashed(s@),
{
    let n = s.unicode_len();
    let mut r = String::new();
    let mut i: usize = 0;
    while i < n
        invariant
            n == s@.len(),
            i <= n,
            r@ == slashed(s@).take(i as int),
        decreases n - i,
    {
        let c = s.get_char(i);
        if c == '\\' {
            proof {
                reveal_strlit("/");
            }
            r.append("/");
        } else {
            r.append(s.substring_char(i, i + 1));
        }
        assert(r@ =~= slashed(s@).take(i + 1));
        i = i + 1;
    }
    assert(slashed(s@).take(n as int) =~= slashed(s@));
    r
}

/// Index of the end of `s` once trailing slashes are cut.
fn trimmed_end(s: &str) -> (end: usize)
    ensures
        end <= s@.len(),
        s@.take(end as int) == trim_end_slashes(s@),
{
    let mut end = s.unicode_len();
    assert(s@.take(end as int) =~= s@);
    while end > 0 && s.get_char(end - 1) == '/'
        invariant
            end <= s@.len(),
            trim_end_slashes(s@.take(end as int)) == trim_end_slashes(s@),
        decreases end,
    {
        assert(s@.take(end as int).drop_last() =~= s@.take(end - 1));
        end = end - 1;
    }
    end
}

/// Index at which `s[from..]` starts once leading slashes are cut.
fn skip_slashes(s: &str, from: usize) -> (start: usize)
    requires
        from <= s@.len(),
    ensures
        from <= start <= s@.len(),
        s@.skip(start as int) == trim_start_slashes(s@.skip(from as int)),
{
    let n = s.unicode_len();
    let mut start = from;
    while start < n && s.get_char(start) == '/'
        invariant
            n == s@.len(),
            from <= start <= n,
            trim_start_slashes(s@.skip(start as int)) == trim_start_slashes(s@.skip(from as int)),
        decreases n - start,
    {
        assert(s@.skip(start as int).skip(1) =~= s@.skip(start + 1));
        start = start + 1;
    }
    start
}

/// Index at which `s[from..]` starts once leading `./` pairs, and the slashes
/// after them, are cut.
fn skip_dot_slashes(s: &str, from: usize) -> (start: usize)
    requires
        from <= s@.len(),
    ensures
        from <= start <= s@.len(),
        s@.skip(start as int) == strip_dot_slash(s@.skip(from as int)),
{
    let n = s.unicode_len();
    let mut start = from;
    let mut after = false;
    loop
        invariant
            n == s@.len(),
            from <= start <= n,
            after ==> strip_after_dot(s@.skip(start as int)) == strip_dot_slash(
                s@.skip(from as int),
            ),
            !after ==> start == from,
        decreases n - start,
    {
        if n - start >= 2 && s.get_char(start) == '.' && s.get_char(start + 1) == '/' {
            assert(s@.skip(start as int).skip(2) =~= s@.skip(start + 2));
            start = start + 2;
            after = true;
        } else if after && start < n && s.get_char(start) == '/' {
            assert(s@.skip(start as int).skip(1) =~= s@.skip(start + 1));
            start = start + 1;
        } else {
            return start;
        }
    }
}

/// Normalize a user-supplied path to the repository-relative form: `/` as the
/// separator, the root cut from an absolute path, leading `./` removed with the
/// slashes after them. The result is never absolute.
pub fn normalize_path(input: &str, repo_root: &str) -> (r: Result<String, ShadowError>)
    ensures
        normalized(input@, repo_root@) matches Some(p) ==> r matches Ok(s) && s@ == p,
        normalized(input@, repo_root@) is None ==> r matches Err(ShadowError::OutsideRepo { .. }),
        r matches Ok(s) ==> !is_absolute(s@),
{
    proof {
        lemma_normalized_relative(input@, repo_root@);
    }
    let p = to_forward_slashes(input);
    let pn = p.unicode_len();
    let mut from: usize = 0;
    if pn > 0 && p.get_char(0) == '/' {
        let root = to_forward_slashes(repo_root);
        let rn = trimmed_end(root.as_str());
        let mut under = rn <= pn;
        let mut k: usize = 0;
        while under && k < rn
            invariant
                rn <= root@.len(),
                pn == p@.len(),
                k <= rn,
                under ==> rn <= pn,
                under ==> p@.take(k as int) == root@.take(k as int),
                !under ==> !lies_under(p@, root@.take(rn as int)),
            ensures
                under ==> rn <= pn && p@.take(rn as int) == root@.take(rn as int),
                !under ==> !lies_under(p@, root@.take(rn as int)),
            decreases rn - k,
        {
            if p.get_char(k) != root.get_char(k) {
                under = false;
                assert(p@[k as int] != root@.take(rn as int)[k as int]);
                break;
            } else {
                assert(p@.take(k + 1) =~= root@.take(k + 1));
                k = k + 1;
            }
        }
        if under && rn < pn && p.get_char(rn) != '/' {
            under = false;
        }
        if !under {
            return Err(ShadowError::OutsideRepo { path: p, root: root });
        }
        assert(root@.take(rn as int) =~= p@.take(rn as int));
        assert(lies_under(p@, root@.take(rn as int)));
        from = skip_slashes(p.as_str(), rn);
    }
    let start = skip_dot_slashes(p.as_str(), from);
    assert(from == 0 ==> p@.skip(0) =~= p@);
    let r = String::from_str(p.as_str().substring_char(start, pn));
    assert(p@.subrange(start as int, pn as int) =~= p@.skip(start as int));
    Ok(r)
}

/// `b` placed under the directory `a`, as `Path::join` does for a relative `b`.
pub open spec fn joined_path(a: Seq<char>, b: Seq<char>) -> Seq<char> {
    if a.len() == 0 {
        b
    } else if a.last() == '/' {
        a + b
    } else {
        a + seq!['/'] + b
    }
}

/// `name` placed under the directory `dir`.
pub fn join_path(dir: &str, name: &str) -> (r: String)
    ensures
        r@ == joined_path(dir@, name@),
{
    let n = dir.unicode_len();
    let mut r = String::from_str(dir);
    if n > 0 && dir.get_char(n - 1) != '/' {
        proof {
            reveal_strlit("/");
        }
        r.append("/");
    }
    r.append(name);
    r
}

} // verus!
