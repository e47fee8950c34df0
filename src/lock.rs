use vstd::prelude::*;

use crate::error::ShadowError;
use crate::text::{line_at, line_end, lines, lines_from, split_lines, views};

verus! {

/// What chrono makes of an RFC 3339 timestamp: the same instant written in UTC,
/// or `None` when the text is not a valid timestamp.
pub uninterp spec fn rfc3339_in_utc(s: Seq<char>) -> Option<Seq<char>>;

/// Relies on chrono's `DateTime::parse_from_rfc3339`, `with_timezone(&Utc)` and
/// `to_rfc3339`: the instant of `s` written again in UTC, or `None` when `s` does
/// not parse.
#[verifier::external_body]
fn utc_rfc3339(s: &str) -> (r: Option<String>)
    ensures
        r matches Some(t) ==> rfc3339_in_utc(s@) == Some(t@),
        r is None ==> rfc3339_in_utc(s@) is None,
{
    match chrono::DateTime::parse_from_rfc3339(s) {
        Ok(t) => Some(t.with_timezone(&chrono::Utc).to_rfc3339()),
        Err(_) => None,
    }
}

/// Relies on chrono's `Utc::now` and `to_rfc3339`: the current time as RFC 3339
/// text, on one line, which chrono's RFC 3339 parser accepts. The instant
/// itself is not known.
#[verifier::external_body]
pub(crate) fn now_rfc3339() -> (r: String)
    ensures
        rfc3339_in_utc(r@) is Some,
        forall|i: int| 0 <= i < r@.len() ==> r@[i] != '\n',
{
    chrono::Utc::now().to_rfc3339()
}

pub open spec fn digit_value(c: char) -> nat {
    (c as nat - '0' as nat) as nat
}

pub open spec fn is_digit(c: char) -> bool {
    '0' <= c && c <= '9'
}

/// The number that a run of decimal digits writes.
pub open spec fn digits_value(d: Seq<char>) -> nat
    decreases d.len(),
{
    if d.len() == 0 {
        0
    } else {
        digits_value(d.drop_last()) * 10 + digit_value(d.last())
    }
}

/// `u32::from_str`: an optional `+`, then one or more decimal digits whose value fits.
pub open spec fn decimal_u32(s: Seq<char>) -> Option<u32> {
    let d = unsigned_digits(s);
    if d.len() > 0 && all_digits(d) && digits_value(d) <= u32::MAX {
        Some(digits_value(d) as u32)
    } else {
        None
    }
}

/// The digits after an optional leading `+`.
pub open spec fn unsigned_digits(s: Seq<char>) -> Seq<char> {
    if s.len() > 0 && s[0] == '+' {
        s.skip(1)
    } else {
        s
    }
}

pub open spec fn all_digits(d: Seq<char>) -> bool {
    forall|i: int| 0 <= i < d.len() ==> is_digit(#[trigger] d[i])
}

/// The decimal text of `n`, without leading zeros.
pub open spec fn decimal_text(n: nat) -> Seq<char>
    decreases n,
{
    if n < 10 {
        seq![digit_char(n)]
    } else {
        decimal_text(n / 10) + seq![digit_char(n % 10)]
    }
}

pub open spec fn digit_char(n: nat) -> char {
    if n == 0 {
        '0'
    } else if n == 1 {
        '1'
    } else if n == 2 {
        '2'
    } else if n == 3 {
        '3'
    } else if n == 4 {
        '4'
    } else if n == 5 {
        '5'
    } else if n == 6 {
        '6'
    } else if n == 7 {
        '7'
    } else if n == 8 {
        '8'
    } else {
        '9'
    }
}

/// The fields read from the lockfile's lines so far; `None` once a value is malformed.
pub open spec fn lock_scan(ls: Seq<Seq<char>>, pid: Option<u32>, ts: Option<Seq<char>>) -> Option<
    (Option<u32>, Option<Seq<char>>),
>
    decreases ls.len(),
{
    if ls.len() == 0 {
        Some((pid, ts))
    } else {
        let l = ls[0];
        let rest = ls.skip(1);
        if "pid="@.is_prefix_of(l) {
            match decimal_u32(l.skip(4)) {
                Some(v) => lock_scan(rest, Some(v), ts),
                None => None,
            }
        } else if "timestamp="@.is_prefix_of(l) {
            match rfc3339_in_utc(l.skip(10)) {
                Some(t) => lock_scan(rest, pid, Some(t)),
                None => None,
            }
        } else {
            lock_scan(rest, pid, ts)
        }
    }
}

/// The pid and the UTC timestamp that a lockfile's text holds, or `None`.
pub open spec fn parsed_lock(content: Seq<char>) -> Option<(u32, Seq<char>)> {
    match lock_scan(lines(content), None, None) {
        Some((Some(p), Some(t))) => Some((p, t)),
        _ => None,
    }
}

/// The text of a lockfile: `pid=<pid>` and `timestamp=<ts>` on two lines.
pub open spec fn lock_text(pid: nat, ts: Seq<char>) -> Seq<char> {
    "pid="@ + decimal_text(pid) + "\ntimestamp="@ + ts
}

/// Who holds the lockfile, read from its text.
pub struct LockInfo {
    pub pid: u32,
    /// The RFC 3339 time of acquisition, in UTC.
    pub timestamp: String,
}

pub enum LockStatus {
    Free,
    HeldByUs,
    HeldByOther(LockInfo),
    Stale(LockInfo),
}

/// What a process may do with the lockfile.
pub enum AcquireStep {
    /// It holds the lock already: nothing to write.
    AlreadyHeld,
    /// Write this text to the lockfile.
    Write(String),
}

proof fn lemma_digits_grow(d: Seq<char>, i: int)
    requires
        0 <= i < d.len(),
    ensures
        digits_value(d.take(i + 1)) >= digits_value(d.take(i)),
{
    assert(d.take(i + 1).drop_last() =~= d.take(i));
}

/// `u32::from_str` on `s`.
pub fn parse_u32(s: &str) -> (r: Option<u32>)
    ensures
        r == decimal_u32(s@),
{
    let n = s.unicode_len();
    let mut i: usize = 0;
    if n > 0 && s.get_char(0) == '+' {
        i = 1;
    }
    let ghost d = unsigned_digits(s@);
    let start = i;
    assert(d =~= s@.skip(start as int));
    if start == n {
        return None;
    }
    let mut acc: u64 = 0;
    let mut over = false;
    while i < n
        invariant
            n == s@.len(),
            start <= i <= n,
            d == s@.skip(start as int),
            d == unsigned_digits(s@),
            forall|j: int| 0 <= j < i - start ==> is_digit(#[trigger] d[j]),
            !over ==> acc == digits_value(d.take(i - start)),
            over ==> digits_value(d.take(i - start)) > u32::MAX,
            acc <= u32::MAX,
        decreases n - i,
    {
        let c = s.get_char(i);
        assert(d[i - start] == c);
        if c < '0' || c > '9' {
            assert(!is_digit(d[i - start]));
            assert(!all_digits(d));
            return None;
        }
        let ghost k = (i - start) as int;
        assert(d.take(k + 1).drop_last() =~= d.take(k));
        assert(d.take(k + 1).last() == c);
        proof {
            lemma_digits_grow(d, k);
        }
        if !over {
            let v = acc * 10 + (c as u64 - '0' as u64);
            if v > u32::MAX as u64 {
                over = true;
            } else {
                acc = v;
            }
        }
        i = i + 1;
    }
    assert(d.take(n - start) =~= d);
    assert(all_digits(d));
    if over {
        None
    } else {
        Some(acc as u32)
    }
}

/// The decimal text of `n`.
pub fn u32_text(n: u32) -> (r: String)
    ensures
        r@ == decimal_text(n as nat),
    decreases n,
{
    proof {
        reveal_strlit("0123456789");
    }
    let digits = "0123456789";
    let d = (n % 10) as usize;
    let last = digits.substring_char(d, d + 1);
    assert(last@ =~= seq![digit_char(d as nat)]);
    if n < 10 {
        String::from_str(last)
    } else {
        let mut r = u32_text(n / 10);
        r.append(last);
        r
    }
}

/// The decimal text of `n`.
pub fn u64_text(n: u64) -> (r: String)
    ensures
        r@ == decimal_text(n as nat),
    decreases n,
{
    proof {
        reveal_strlit("0123456789");
    }
    let digits = "0123456789";
    let d = (n % 10) as usize;
    let last = digits.substring_char(d, d + 1);
    assert(last@ =~= seq![digit_char(d as nat)]);
    if n < 10 {
        String::from_str(last)
    } else {
        let mut r = u64_text(n / 10);
        r.append(last);
        r
    }
}

/// Read the lockfile's text.
pub fn parse_lock(content: &str) -> (r: Result<LockInfo, ShadowError>)
    ensures
        parsed_lock(content@) matches Some((p, t)) ==> r matches Ok(info) && info.pid == p
            && info.timestamp@ == t,
        parsed_lock(content@) is None ==> r matches Err(ShadowError::InvalidLock(_)),
{
    let ls = split_lines(content);
    let mut pid: Option<u32> = None;
    let mut ts: Option<String> = None;
    let mut i: usize = 0;
    assert(views(ls@).skip(0) =~= views(ls@));
    while i < ls.len()
        invariant
            i <= ls.len(),
            views(ls@) == lines(content@),
            lock_scan(views(ls@), None, None) == lock_scan(
                views(ls@).skip(i as int),
                pid,
                match ts {
                    Some(t) => Some(t@),
                    None => None,
                },
            ),
        decreases ls.len() - i,
    {
        let ghost rest = views(ls@).skip(i as int);
        assert(rest.skip(1) =~= views(ls@).skip(i + 1));
        assert(rest[0] == ls@[i as int]@);
        let line = ls[i].as_str();
        let len = line.unicode_len();
        proof {
            reveal_strlit("pid=");
            reveal_strlit("timestamp=");
        }
        if len >= 4 && crate::text::str_eq(line.substring_char(0, 4), "pid=") {
            assert(line@.subrange(0, 4) =~= "pid="@.subrange(0, 4));
            assert("pid="@.is_prefix_of(line@));
            let v = line.substring_char(4, len);
            assert(v@ =~= line@.skip(4));
            match parse_u32(v) {
                Some(p) => {
                    pid = Some(p);
                },
                None => {
                    return Err(ShadowError::InvalidLock(String::from_str(line)));
                },
            }
        } else if len >= 10 && crate::text::str_eq(line.substring_char(0, 10), "timestamp=") {
            assert(!"pid="@.is_prefix_of(line@)) by {
                if "pid="@.is_prefix_of(line@) {
                    assert(line@[0] == 'p');
                    assert(line@.subrange(0, 10)[0] == 't');
                }
            }
            assert("timestamp="@.is_prefix_of(line@)) by {
                assert(line@.subrange(0, 10) =~= "timestamp="@.subrange(0, 10));
            }
            let v = line.substring_char(10, len);
            assert(v@ =~= line@.skip(10));
            match utc_rfc3339(v) {
                Some(t) => {
                    ts = Some(t);
                },
                None => {
                    return Err(ShadowError::InvalidLock(String::from_str(line)));
                },
            }
        } else {
            assert(!"pid="@.is_prefix_of(line@)) by {
                if "pid="@.is_prefix_of(line@) {
                    assert(line@.subrange(0, 4) =~= "pid="@);
                }
            }
            assert(!"timestamp="@.is_prefix_of(line@)) by {
                if "timestamp="@.is_prefix_of(line@) {
                    assert(line@.subrange(0, 10) =~= "timestamp="@);
                }
            }
        }
        i = i + 1;
    }
    assert(views(ls@).skip(i as int) =~= Seq::<Seq<char>>::empty());
    match (pid, ts) {
        (Some(p), Some(t)) => Ok(LockInfo { pid: p, timestamp: t }),
        _ => Err(ShadowError::InvalidLock(String::from_str(content))),
    }
}

/// The lockfile's text for process `pid`, taken at time `timestamp`.
pub fn lock_content(pid: u32, timestamp: &str) -> (r: String)
    ensures
        r@ == lock_text(pid as nat, timestamp@),
{
    proof {
        reveal_strlit("pid=");
        reveal_strlit("\ntimestamp=");
    }
    let mut r = String::from_str("pid=");
    let p = u32_text(pid);
    r.append(p.as_str());
    r.append("\ntimestamp=");
    r.append(timestamp);
    r
}

/// The state of the lock, from the lockfile's text (`None`: there is no lockfile),
/// this process's id, and a liveness probe for other processes.
pub fn check_lock<F: Fn(u32) -> bool>(content: Option<&str>, my_pid: u32, is_alive: F) -> (r:
    Result<LockStatus, ShadowError>)
    requires
        forall|p: u32| is_alive.requires((p,)),
    ensures
        content is None ==> r matches Ok(LockStatus::Free),
        content matches Some(c) ==> match parsed_lock(c@) {
            None => r matches Err(ShadowError::InvalidLock(_)),
            Some((p, t)) => if p == my_pid {
                r matches Ok(LockStatus::HeldByUs)
            } else {
                ||| (r matches Ok(LockStatus::HeldByOther(i)) && i.pid == p && i.timestamp@ == t
                    && is_alive.ensures((p,), true))
                ||| (r matches Ok(LockStatus::Stale(i)) && i.pid == p && i.timestamp@ == t
                    && is_alive.ensures((p,), false))
            },
        },
{
    match content {
        None => Ok(LockStatus::Free),
        Some(c) => {
            let info = parse_lock(c)?;
            if info.pid == my_pid {
                Ok(LockStatus::HeldByUs)
            } else if is_alive(info.pid) {
                Ok(LockStatus::HeldByOther(info))
            } else {
                Ok(LockStatus::Stale(info))
            }
        },
    }
}

/// Whether `content`, when present, is the text of a lockfile held by `my_pid`.
pub open spec fn held_by(content: Option<Seq<char>>, my_pid: u32) -> bool {
    content matches Some(c) && parsed_lock(c) matches Some((p, _)) && p == my_pid
}

/// Acquire the lock for process `my_pid`. A lock held by another live process
/// fails with `LockHeld`; one whose process is gone fails with `StaleLock` and is
/// left for an explicit restore. Without a lockfile, or with one that does not
/// parse, the text to write is returned; it reads back as held by `my_pid`.
pub fn acquire_lock<F: Fn(u32) -> bool>(content: Option<&str>, my_pid: u32, is_alive: F) -> (r:
    Result<AcquireStep, ShadowError>)
    requires
        forall|p: u32| is_alive.requires((p,)),
    ensures
        match content {
            None => r matches Ok(AcquireStep::Write(t)) && held_by(Some(t@), my_pid) && exists|
                ts: Seq<char>,
            | t@ == lock_text(my_pid as nat, ts),
            Some(c) => match parsed_lock(c@) {
                None => r matches Ok(AcquireStep::Write(t)) && held_by(Some(t@), my_pid) && exists|
                    ts: Seq<char>,
                | t@ == lock_text(my_pid as nat, ts),
                Some((p, t)) => if p == my_pid {
                    r matches Ok(AcquireStep::AlreadyHeld)
                } else {
                    ||| (r matches Err(ShadowError::LockHeld { pid, timestamp }) && pid == p
                        && timestamp@ == t && is_alive.ensures((p,), true))
                    ||| (r == Err::<AcquireStep, ShadowError>(ShadowError::StaleLock(p))
                        && is_alive.ensures((p,), false))
                },
            },
        },
{
    if let Some(c) = content {
        if let Ok(info) = parse_lock(c) {
            if info.pid == my_pid {
                return Ok(AcquireStep::AlreadyHeld);
            }
            if is_alive(info.pid) {
                return Err(ShadowError::LockHeld { pid: info.pid, timestamp: info.timestamp });
            }
            return Err(ShadowError::StaleLock(info.pid));
        }
    }
    let now = now_rfc3339();
    let text = lock_content(my_pid, now.as_str());
    proof {
        let utc = rfc3339_in_utc(now@)->Some_0;
        lemma_lock_text_parses(my_pid, now@, utc);
    }
    Ok(AcquireStep::Write(text))
}

proof fn lemma_line_end_at(s: Seq<char>, i: int, j: int)
    requires
        0 <= i <= j <= s.len(),
        forall|k: int| i <= k < j ==> s[k] != '\n',
        j == s.len() || s[j] == '\n',
    ensures
        line_end(s, i) == j,
    decreases j - i,
{
    if i < j {
        lemma_line_end_at(s, i + 1, j);
    }
}

proof fn lemma_digit_char(k: nat)
    requires
        k < 10,
    ensures
        is_digit(digit_char(k)),
        digit_value(digit_char(k)) == k,
{
    if k == 0 {
        assert(digit_char(k) == '0');
    } else if k == 1 {
        assert(('1' as nat) - ('0' as nat) == 1);
    } else if k == 2 {
        assert(('2' as nat) - ('0' as nat) == 2);
    } else if k == 3 {
        assert(('3' as nat) - ('0' as nat) == 3);
    } else if k == 4 {
        assert(('4' as nat) - ('0' as nat) == 4);
    } else if k == 5 {
        assert(('5' as nat) - ('0' as nat) == 5);
    } else if k == 6 {
        assert(('6' as nat) - ('0' as nat) == 6);
    } else if k == 7 {
        assert(('7' as nat) - ('0' as nat) == 7);
    } else if k == 8 {
        assert(('8' as nat) - ('0' as nat) == 8);
    } else {
        assert(('9' as nat) - ('0' as nat) == 9);
    }
}

proof fn lemma_decimal_text(n: nat)
    ensures
        decimal_text(n).len() > 0,
        all_digits(decimal_text(n)),
        digits_value(decimal_text(n)) == n,
    decreases n,
{
    lemma_digit_char(n % 10);
    if n < 10 {
        assert(n % 10 == n);
        assert(decimal_text(n).drop_last() =~= Seq::<char>::empty());
        assert(digits_value(Seq::<char>::empty()) == 0);
        assert(decimal_text(n).last() == digit_char(n));
    } else {
        lemma_decimal_text(n / 10);
        let t = decimal_text(n);
        assert(t.drop_last() =~= decimal_text(n / 10));
        assert(t.last() == digit_char(n % 10));
        assert(n == (n / 10) * 10 + n % 10);
        assert forall|i: int| 0 <= i < t.len() implies is_digit(#[trigger] t[i]) by {
            if i < t.len() - 1 {
                assert(t[i] == decimal_text(n / 10)[i]);
            }
        }
    }
}

/// The lockfile that a process writes reads back as that process's: the pid
/// line gives its pid, and the timestamp line the timestamp in UTC.
pub proof fn lemma_lock_text_parses(pid: u32, ts: Seq<char>, utc: Seq<char>)
    requires
        forall|i: int| 0 <= i < ts.len() ==> ts[i] != '\n',
        rfc3339_in_utc(ts) == Some(utc),
    ensures
        parsed_lock(lock_text(pid as nat, ts)) == Some((pid, utc)),
{
    reveal_strlit("pid=");
    reveal_strlit("\ntimestamp=");
    reveal_strlit("timestamp=");
    let d = decimal_text(pid as nat);
    lemma_decimal_text(pid as nat);
    let l1 = "pid="@ + d;
    let l2 = "timestamp="@ + ts;
    let s = lock_text(pid as nat, ts);
    assert(s =~= l1 + seq!['\n'] + l2);
    let e1 = l1.len() as int;
    assert forall|k: int| 0 <= k < e1 implies s[k] != '\n' by {
        if k >= 4 {
            assert(s[k] == d[k - 4]);
            assert(is_digit(d[k - 4]));
        }
    }
    lemma_line_end_at(s, 0, e1);
    assert forall|k: int| e1 + 1 <= k < s.len() implies s[k] != '\n' by {
        if k >= e1 + 11 {
            assert(s[k] == ts[k - e1 - 11]);
        }
    }
    lemma_line_end_at(s, e1 + 1, s.len() as int);
    assert(is_digit(d.last()));
    assert(s.subrange(0, e1) =~= l1);
    assert(line_at(s, 0, e1) == l1);
    assert(s.subrange(e1 + 1, s.len() as int) =~= l2);
    assert(line_at(s, e1 + 1, s.len() as int) == l2);
    assert(lines_from(s, s.len() + 1 as int) == Seq::<Seq<char>>::empty());
    assert(lines_from(s, e1 + 1) =~= seq![l2]);
    assert(lines(s) =~= seq![l1, l2]);
    let ls = seq![l1, l2];
    assert("pid="@.is_prefix_of(l1));
    assert(l1.skip(4) =~= d);
    assert(is_digit(d[0]));
    assert(unsigned_digits(d) == d);
    assert(decimal_u32(d) == Some(pid));
    assert(ls.skip(1) =~= seq![l2]);
    assert(!"pid="@.is_prefix_of(l2)) by {
        assert(l2[0] == 't');
    }
    assert("timestamp="@.is_prefix_of(l2));
    assert(l2.skip(10) =~= ts);
    assert(seq![l2].skip(1) =~= Seq::<Seq<char>>::empty());
    assert(lock_scan(Seq::<Seq<char>>::empty(), Some(pid), Some(utc)) == Some(
        (Some(pid), Some(utc)),
    ));
    assert(lock_scan(seq![l2], Some(pid), None) == Some((Some(pid), Some(utc))));
    assert(lock_scan(ls, None, None) == Some((Some(pid), Some(utc))));
}

/// Lock exclusion: once process `a` has written its lockfile, an acquire by any
/// other process `b` meets `a`'s pid there, so it does not succeed (it is
/// refused as held, or as stale when `a` is gone), while `a` itself re-enters.
pub proof fn lemma_lock_exclusion(a: u32, b: u32, ts: Seq<char>, utc: Seq<char>)
    requires
        a != b,
        forall|i: int| 0 <= i < ts.len() ==> ts[i] != '\n',
        rfc3339_in_utc(ts) == Some(utc),
    ensures
        !held_by(Some(lock_text(a as nat, ts)), b),
        held_by(Some(lock_text(a as nat, ts)), a),
        parsed_lock(lock_text(a as nat, ts)) == Some((a, utc)),
{
    lemma_lock_text_parses(a, ts, utc);
}

} // verus!
