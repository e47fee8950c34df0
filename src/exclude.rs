use vstd::prelude::*;

use crate::path::{join_path, joined_path};
use crate::text::{
    ends_with_char, join_lines, joined, lemma_joined_lines, lemma_lines_concat, lemma_lines_single,
    lemma_lines_plain, lemma_lines_split, lines, no_cr, no_newline, plain_lines, split_lines,
    str_eq, strip_one_newline, trim, trimmed, views,
};

verus! {

pub const SECTION_START: &'static str = "# >>> git-shadow managed (DO NOT EDIT) >>>";

pub const SECTION_END: &'static str = "# <<< git-shadow managed <<<";

pub open spec fn start_line() -> Seq<char> {
    SECTION_START@
}

pub open spec fn end_line() -> Seq<char> {
    SECTION_END@
}

/// A trimmed line of the section that names an entry.
pub open spec fn is_entry(t: Seq<char>) -> bool {
    t.len() > 0 && t[0] != '#'
}

/// The entries that the lines hold inside fenced blocks, in order.
pub open spec fn section_entries(ls: Seq<Seq<char>>, in_section: bool) -> Seq<Seq<char>>
    decreases ls.len(),
{
    if ls.len() == 0 {
        Seq::empty()
    } else {
        let l = ls[0];
        let rest = ls.skip(1);
        if l == start_line() {
            section_entries(rest, true)
        } else if l == end_line() {
            section_entries(rest, false)
        } else if in_section && is_entry(trimmed(l)) {
            seq![trimmed(l)] + section_entries(rest, in_section)
        } else {
            section_entries(rest, in_section)
        }
    }
}

/// The lines outside the fenced block: those before its end, and those after.
pub open spec fn outside_lines(ls: Seq<Seq<char>>, in_section: bool, past: bool) -> (Seq<Seq<char>>, Seq<Seq<char>>)
    decreases ls.len(),
{
    if ls.len() == 0 {
        (Seq::empty(), Seq::empty())
    } else {
        let l = ls[0];
        let rest = ls.skip(1);
        if l == start_line() {
            outside_lines(rest, true, past)
        } else if l == end_line() {
            outside_lines(rest, false, true)
        } else if in_section {
            outside_lines(rest, in_section, past)
        } else if past {
            let (b, a) = outside_lines(rest, in_section, past);
            (b, seq![l] + a)
        } else {
            let (b, a) = outside_lines(rest, in_section, past);
            (seq![l] + b, a)
        }
    }
}

proof fn lemma_nothing_before_after_end(ls: Seq<Seq<char>>, in_section: bool)
    ensures
        outside_lines(ls, in_section, true).0 == Seq::<Seq<char>>::empty(),
    decreases ls.len(),
{
    if ls.len() > 0 {
        lemma_nothing_before_after_end(ls.skip(1), true);
        lemma_nothing_before_after_end(ls.skip(1), false);
        lemma_nothing_before_after_end(ls.skip(1), in_section);
    }
}

/// `r` with a `\n` added unless it is empty or already ends with one.
pub open spec fn with_newline(r: Seq<char>) -> Seq<char> {
    if r.len() > 0 && r.last() != '\n' {
        r + seq!['\n']
    } else {
        r
    }
}

/// Each entry followed by `\n`.
pub open spec fn entries_text(es: Seq<Seq<char>>) -> Seq<char>
    decreases es.len(),
{
    if es.len() == 0 {
        Seq::empty()
    } else {
        entries_text(es.drop_last()) + es.last() + seq!['\n']
    }
}

/// The file with its fenced block replaced by one that holds `es`, or with no
/// block when `es` is empty.
pub open spec fn rebuilt(content: Seq<char>, es: Seq<Seq<char>>) -> Seq<char> {
    let (b, a) = outside_lines(lines(content), false, false);
    let head = joined(b);
    if es.len() == 0 {
        if a.len() > 0 {
            with_newline(
                (if head.len() > 0 {
                    head + seq!['\n']
                } else {
                    head
                }) + joined(a),
            )
        } else {
            with_newline(head)
        }
    } else {
        let r = with_newline(head) + start_line() + seq!['\n'] + entries_text(es) + end_line()
            + seq!['\n'];
        if a.len() > 0 {
            with_newline(r + joined(a))
        } else {
            r
        }
    }
}

/// The entries of the fenced block of the file `content`.
pub open spec fn listed(content: Seq<char>) -> Seq<Seq<char>> {
    section_entries(lines(content), false)
}

/// `es` without the items equal to `e`.
pub open spec fn without(es: Seq<Seq<char>>, e: Seq<char>) -> Seq<Seq<char>>
    decreases es.len(),
{
    if es.len() == 0 {
        Seq::empty()
    } else if es.last() == e {
        without(es.drop_last(), e)
    } else {
        without(es.drop_last(), e).push(es.last())
    }
}

/// The file after `e` is added: `None` when it is listed already and nothing changes.
pub open spec fn with_entry_added(content: Seq<char>, e: Seq<char>) -> Option<Seq<char>> {
    if listed(content).contains(e) {
        None
    } else {
        Some(rebuilt(content, listed(content).push(e)))
    }
}

/// The file after `e` is removed.
pub open spec fn with_entry_removed(content: Seq<char>, e: Seq<char>) -> Seq<char> {
    rebuilt(content, without(listed(content), e))
}

/// The line that excludes a phantom: a directory carries a trailing `/`.
pub open spec fn exclude_line_of(path: Seq<char>, is_directory: bool) -> Seq<char> {
    if is_directory {
        path + seq!['/']
    } else {
        path
    }
}

pub fn exclude_line(path: &str, is_directory: bool) -> (r: String)
    ensures
        r@ == exclude_line_of(path@, is_directory),
{
    let mut r = String::from_str(path);
    if is_directory {
        proof {
            reveal_strlit("/");
        }
        r.append("/");
    }
    r
}

/// The fenced block of the repository's local ignore file (`info/exclude`).
/// The methods take the file's text and give the text to write back.
pub struct ExcludeManager {
    pub path: String,
}

impl ExcludeManager {
    pub fn new(git_dir: &str) -> (r: Self)
        ensures
            r.path@ == joined_path(joined_path(git_dir@, "info"@), "exclude"@),
    {
        let info = join_path(git_dir, "info");
        ExcludeManager { path: join_path(info.as_str(), "exclude") }
    }

    /// The text to write after adding `entry_path`; `None` when it is there already.
    pub fn add_entry(&self, content: &str, entry_path: &str) -> (r: Option<String>)
        ensures
            r matches Some(t) ==> with_entry_added(content@, entry_path@) == Some(t@),
            r is None ==> with_entry_added(content@, entry_path@) is None,
    {
        let mut entries = self.parse_section(content);
        let mut i: usize = 0;
        while i < entries.len()
            invariant
                i <= entries.len(),
                views(entries@) == listed(content@),
                forall|j: int| 0 <= j < i ==> views(entries@)[j] != entry_path@,
            decreases entries.len() - i,
        {
            if str_eq(entries[i].as_str(), entry_path) {
                assert(views(entries@)[i as int] == entry_path@);
                return None;
            }
            i = i + 1;
        }
        let ghost before = views(entries@);
        entries.push(String::from_str(entry_path));
        assert(views(entries@) =~= before.push(entry_path@));
        Some(self.rebuild_content(content, &entries))
    }

    /// The text to write after removing `entry_path`; the same block when it is absent.
    pub fn remove_entry(&self, content: &str, entry_path: &str) -> (r: String)
        ensures
            r@ == with_entry_removed(content@, entry_path@),
    {
        let entries = self.parse_section(content);
        let mut kept: Vec<String> = Vec::new();
        let mut i: usize = 0;
        while i < entries.len()
            invariant
                i <= entries.len(),
                views(entries@) == listed(content@),
                views(kept@) == without(views(entries@).take(i as int), entry_path@),
            decreases entries.len() - i,
        {
            let ghost t = views(entries@).take(i + 1);
            assert(t.drop_last() =~= views(entries@).take(i as int));
            let ghost before = views(kept@);
            if !str_eq(entries[i].as_str(), entry_path) {
                kept.push(entries[i].clone());
                assert(views(kept@) =~= before.push(views(entries@)[i as int]));
            }
            i = i + 1;
        }
        assert(views(entries@).take(entries.len() as int) =~= views(entries@));
        self.rebuild_content(content, &kept)
    }

    /// The entries of the fenced block.
    pub fn list_entries(&self, content: &str) -> (r: Vec<String>)
        ensures
            views(r@) == listed(content@),
    {
        self.parse_section(content)
    }

    /// The entries inside fenced blocks, trimmed; blank and comment lines skipped.
    pub fn parse_section(&self, content: &str) -> (r: Vec<String>)
        ensures
            views(r@) == listed(content@),
    {
        let ls = split_lines(content);
        let mut in_section = false;
        let mut entries: Vec<String> = Vec::new();
        let mut i: usize = 0;
        assert(views(ls@).skip(0) =~= views(ls@));
        while i < ls.len()
            invariant
                i <= ls.len(),
                views(ls@) == lines(content@),
                views(entries@) + section_entries(views(ls@).skip(i as int), in_section)
                    == listed(content@),
            decreases ls.len() - i,
        {
            let ghost rest = views(ls@).skip(i as int);
            let ghost e0 = views(entries@);
            let ghost in0 = in_section;
            assert(rest.skip(1) =~= views(ls@).skip(i + 1));
            assert(rest[0] == ls@[i as int]@);
            let line = ls[i].as_str();
            if str_eq(line, SECTION_START) {
                in_section = true;
            } else if str_eq(line, SECTION_END) {
                in_section = false;
            } else if in_section {
                let t = trim(line);
                if t.unicode_len() > 0 && t.get_char(0) != '#' {
                    entries.push(t);
                    assert(views(entries@) =~= e0 + seq![trimmed(rest[0])]);
                    assert(e0 + section_entries(rest, in0) =~= views(entries@)
                        + section_entries(rest.skip(1), in_section));
                }
            }
            i = i + 1;
        }
        assert(section_entries(views(ls@).skip(i as int), in_section) =~= Seq::<Seq<char>>::empty());
        assert(views(entries@) + Seq::<Seq<char>>::empty() =~= views(entries@));
        entries
    }

    /// The file with everything outside the fenced block kept and the block
    /// rewritten to hold `entries`.
    pub fn rebuild_content(&self, content: &str, entries: &Vec<String>) -> (r: String)
        ensures
            r@ == rebuilt(content@, views(entries@)),
    {
        let ls = split_lines(content);
        let mut before: Vec<String> = Vec::new();
        let mut after: Vec<String> = Vec::new();
        let mut in_section = false;
        let mut past = false;
        let mut i: usize = 0;
        let ghost all = outside_lines(lines(content@), false, false);
        assert(views(ls@).skip(0) =~= views(ls@));
        while i < ls.len()
            invariant
                i <= ls.len(),
                views(ls@) == lines(content@),
                all == outside_lines(lines(content@), false, false),
                views(before@) + outside_lines(views(ls@).skip(i as int), in_section, past).0
                    == all.0,
                views(after@) + outside_lines(views(ls@).skip(i as int), in_section, past).1
                    == all.1,
                past ==> views(before@) == all.0,
            decreases ls.len() - i,
        {
            let ghost rest = views(ls@).skip(i as int);
            let ghost b0 = views(before@);
            let ghost a0 = views(after@);
            let ghost in0 = in_section;
            assert(rest.skip(1) =~= views(ls@).skip(i + 1));
            assert(rest[0] == ls@[i as int]@);
            let line = ls[i].as_str();
            if str_eq(line, SECTION_START) {
                in_section = true;
            } else if str_eq(line, SECTION_END) {
                in_section = false;
                past = true;
            } else if in_section {
            } else if past {
                after.push(ls[i].clone());
                assert(views(after@) =~= a0 + seq![rest[0]]);
                assert(a0 + outside_lines(rest, in0, past).1 =~= views(after@) + outside_lines(
                    rest.skip(1),
                    in_section,
                    past,
                ).1);
            } else {
                before.push(ls[i].clone());
                assert(views(before@) =~= b0 + seq![rest[0]]);
                assert(b0 + outside_lines(rest, in0, past).0 =~= views(before@) + outside_lines(
                    rest.skip(1),
                    in_section,
                    past,
                ).0);
            }
            proof {
                lemma_nothing_before_after_end(rest.skip(1), in_section);
                if past {
                    assert(views(before@) + Seq::<Seq<char>>::empty() =~= views(before@));
                }
            }
            i = i + 1;
        }
        assert(views(ls@).skip(i as int) =~= Seq::<Seq<char>>::empty());
        assert(views(before@) + Seq::<Seq<char>>::empty() =~= views(before@));
        assert(views(after@) + Seq::<Seq<char>>::empty() =~= views(after@));
        let mut result = join_lines(&before);
        if entries.len() == 0 {
            if after.len() > 0 {
                if result.unicode_len() > 0 {
                    proof {
                        reveal_strlit("\n");
                    }
                    result.append("\n");
                }
                let tail = join_lines(&after);
                result.append(tail.as_str());
            }
            if result.unicode_len() > 0 && !ends_with_char(result.as_str(), '\n') {
                proof {
                    reveal_strlit("\n");
                }
                result.append("\n");
            }
            return result;
        }
        if result.unicode_len() > 0 && !ends_with_char(result.as_str(), '\n') {
            proof {
                reveal_strlit("\n");
            }
            result.append("\n");
        }
        proof {
            reveal_strlit("\n");
        }
        result.append(SECTION_START);
        result.append("\n");
        let ghost block_start = result@;
        let mut k: usize = 0;
        while k < entries.len()
            invariant
                k <= entries.len(),
                result@ == block_start + entries_text(views(entries@).take(k as int)),
                "\n"@ == seq!['\n'],
            decreases entries.len() - k,
        {
            assert(views(entries@).take(k + 1).drop_last() =~= views(entries@).take(k as int));
            result.append(entries[k].as_str());
            result.append("\n");
            k = k + 1;
        }
        assert(views(entries@).take(k as int) =~= views(entries@));
        result.append(SECTION_END);
        result.append("\n");
        if after.len() > 0 {
            let tail = join_lines(&after);
            result.append(tail.as_str());
            if !ends_with_char(result.as_str(), '\n') {
                result.append("\n");
            }
        }
        result
    }
}

/// None of the lines is a fence line.
pub open spec fn fence_free(ls: Seq<Seq<char>>) -> bool {
    forall|i: int| 0 <= i < ls.len() ==> #[trigger] ls[i] != start_line() && ls[i] != end_line()
}

/// A line that the section keeps as it is: not empty, not a comment, trimmed,
/// on one line.
pub open spec fn plain_entry(e: Seq<char>) -> bool {
    &&& is_entry(e)
    &&& trimmed(e) == e
    &&& no_newline(e)
    &&& no_cr(e)
}

/// The file ends with at most one line ending, and is not a lone one.
pub open spec fn single_final_newline(c: Seq<char>) -> bool {
    !(c.len() >= 1 && c.last() == '\n' && (c.len() == 1 || c[c.len() - 2] == '\n'))
}

proof fn lemma_fence_free_prefix(p: Seq<Seq<char>>, q: Seq<Seq<char>>)
    requires
        fence_free(p),
    ensures
        outside_lines(p + q, false, false) == (
            p + outside_lines(q, false, false).0,
            outside_lines(q, false, false).1,
        ),
        section_entries(p + q, false) == section_entries(q, false),
    decreases p.len(),
{
    if p.len() == 0 {
        assert(p + q =~= q);
        assert(p + outside_lines(q, false, false).0 =~= outside_lines(q, false, false).0);
    } else {
        let t = p + q;
        assert(t[0] == p[0]);
        assert(t.skip(1) =~= p.skip(1) + q);
        assert(fence_free(p.skip(1))) by {
            assert forall|i: int| 0 <= i < p.skip(1).len() implies #[trigger] p.skip(1)[i]
                != start_line() && p.skip(1)[i] != end_line() by {
                assert(p.skip(1)[i] == p[i + 1]);
            }
        }
        assert(p[0] != start_line() && p[0] != end_line());
        lemma_fence_free_prefix(p.skip(1), q);
        assert(seq![p[0]] + (p.skip(1) + outside_lines(q, false, false).0) =~= p
            + outside_lines(q, false, false).0);
    }
}

proof fn lemma_lines_add_newline(x: Seq<char>)
    requires
        no_cr(x),
        x.len() > 0,
        x.last() != '\n',
    ensures
        lines(x + seq!['\n']) == lines(x),
    decreases x.len(),
{
    if no_newline(x) {
        lemma_lines_single(x);
        assert(x.last() == x[x.len() - 1]);
        lemma_lines_split(x, Seq::empty());
        assert(x + seq!['\n'] + Seq::<char>::empty() =~= x + seq!['\n']);
        lemma_lines_single(Seq::<char>::empty());
        assert(seq![x] + Seq::<Seq<char>>::empty() =~= seq![x]);
    } else {
        crate::text::lemma_line_end_facts(x, 0);
        let k = crate::text::line_end(x, 0);
        let l = x.take(k);
        let y = x.skip(k + 1);
        assert(x =~= l + seq!['\n'] + y);
        assert(no_newline(l));
        assert(l.len() == 0 || l.last() != '\r') by {
            if l.len() > 0 {
                assert(l.last() == x[k - 1]);
            }
        }
        assert(y.len() > 0) by {
            if y.len() == 0 {
                assert(x.last() == x[k]);
            }
        }
        assert(y.last() == x.last());
        assert(no_cr(y)) by {
            assert forall|i: int| 0 <= i < y.len() implies y[i] != '\r' by {
                assert(y[i] == x[k + 1 + i]);
            }
        }
        lemma_lines_split(l, y);
        assert(x + seq!['\n'] =~= l + seq!['\n'] + (y + seq!['\n']));
        lemma_lines_split(l, y + seq!['\n']);
        lemma_lines_add_newline(y);
    }
}

/// Ignore-section locality: in a file without carriage returns, without fence
/// lines and without blank lines at its end, adding an entry and then removing
/// it gives the file back, with a final line ending added when it had none.
pub proof fn lemma_add_then_remove_entry(c: Seq<char>, e: Seq<char>)
    requires
        no_cr(c),
        fence_free(lines(c)),
        single_final_newline(c),
        plain_entry(e),
    ensures
        with_entry_added(c, e) matches Some(a) && with_entry_removed(a, e) == with_newline(c),
{
    reveal_strlit("# >>> git-shadow managed (DO NOT EDIT) >>>");
    reveal_strlit("# <<< git-shadow managed <<<");
    let sl = start_line();
    let el = end_line();
    assert(sl =~= "# >>> git-shadow managed (DO NOT EDIT) >>>"@);
    assert(el =~= "# <<< git-shadow managed <<<"@);
    let ls = lines(c);
    lemma_fence_free_prefix(ls, Seq::empty());
    assert(ls + Seq::<Seq<char>>::empty() =~= ls);
    assert(listed(c) =~= Seq::<Seq<char>>::empty());
    let es = seq![e];
    assert(listed(c).push(e) =~= es);
    assert(!listed(c).contains(e));
    assert(entries_text(es) =~= e + seq!['\n']) by {
        assert(es.drop_last() =~= Seq::<Seq<char>>::empty());
        assert(entries_text(Seq::<Seq<char>>::empty()) == Seq::<char>::empty());
        assert(es.last() == e);
    }
    lemma_joined_lines(c);
    let h = with_newline(joined(ls));
    assert(h == with_newline(c) || (c.len() > 0 && c.last() == '\n' && h == c)) by {
        if c.len() > 0 && c.last() == '\n' {
            assert(c.drop_last().len() > 0);
            assert(c.drop_last().last() == c[c.len() - 2]);
            assert(c.drop_last() + seq!['\n'] =~= c);
        }
    }
    assert(h == with_newline(c));
    let block = sl + seq!['\n'] + entries_text(es) + el + seq!['\n'];
    let a = h + block;
    assert(rebuilt(c, es) == a);
    assert(with_entry_added(c, e) == Some(a));
    // The lines of the new file: those of `h`, then the fenced block.
    assert(no_newline(sl) && no_newline(el) && no_cr(sl) && no_cr(el));
    assert(no_cr(h)) by {
        assert forall|i: int| 0 <= i < h.len() implies h[i] != '\r' by {
            if i < c.len() {
                assert(h[i] == c[i]);
            }
        }
    }
    lemma_lines_concat(h, block);
    lemma_lines_single(Seq::<char>::empty());
    lemma_lines_split(el, Seq::empty());
    assert(el + seq!['\n'] + Seq::<char>::empty() =~= el + seq!['\n']);
    lemma_lines_split(e, el + seq!['\n']);
    assert(e + seq!['\n'] + (el + seq!['\n']) =~= e + seq!['\n'] + el + seq!['\n']);
    lemma_lines_split(sl, e + seq!['\n'] + el + seq!['\n']);
    assert(block =~= sl + seq!['\n'] + (e + seq!['\n'] + el + seq!['\n']));
    let fence = seq![sl, e, el];
    assert(lines(block) =~= fence);
    assert(lines(a) == lines(h) + fence);
    // The lines of `h` are those of the file.
    if c.len() > 0 && c.last() != '\n' {
        lemma_lines_add_newline(c);
    }
    assert(lines(h) == ls);
    lemma_fence_free_prefix(ls, fence);
    assert(e != sl) by {
        assert(sl[0] == '#');
    }
    assert(e != el) by {
        assert(el[0] == '#');
    }
    assert(fence.skip(1) =~= seq![e, el]);
    assert(seq![e, el].skip(1) =~= seq![el]);
    assert(seq![el].skip(1) =~= Seq::<Seq<char>>::empty());
    let none = Seq::<Seq<char>>::empty();
    assert(outside_lines(none, false, true) == (none, none));
    assert(seq![el][0] == el);
    assert(outside_lines(seq![el], true, false) == outside_lines(none, false, true));
    assert(seq![e, el][0] == e);
    assert(outside_lines(seq![e, el], true, false) == outside_lines(seq![el], true, false));
    assert(fence[0] == sl);
    assert(outside_lines(fence, false, false) == outside_lines(seq![e, el], true, false));
    assert(outside_lines(fence, false, false) == (none, none));
    assert(section_entries(none, false) == none);
    assert(section_entries(seq![el], true) == section_entries(none, false));
    assert(is_entry(trimmed(e)));
    assert(section_entries(seq![e, el], true) == seq![trimmed(e)] + section_entries(
        seq![el],
        true,
    ));
    assert(section_entries(fence, false) == section_entries(seq![e, el], true));
    assert(section_entries(fence, false) =~= es);
    assert(listed(a) == es);
    assert(without(es, e) =~= Seq::<Seq<char>>::empty()) by {
        assert(es.drop_last() =~= Seq::<Seq<char>>::empty());
        assert(es.last() == e);
        assert(without(Seq::<Seq<char>>::empty(), e) == Seq::<Seq<char>>::empty());
    }
    assert(ls + Seq::<Seq<char>>::empty() =~= ls);
    assert(outside_lines(lines(a), false, false) == (ls, Seq::<Seq<char>>::empty()));
    lemma_joined_lines(h);
    assert(with_entry_removed(a, e) == with_newline(strip_one_newline(h)));
    if c.len() > 0 && c.last() == '\n' {
        assert(c.drop_last().len() > 0);
        assert(c.drop_last().last() == c[c.len() - 2]);
    } else if c.len() > 0 {
        assert((c + seq!['\n']).drop_last() =~= c);
    }
}

proof fn lemma_no_cr_concat(x: Seq<char>, y: Seq<char>)
    requires
        no_cr(x),
        no_cr(y),
    ensures
        no_cr(x + y),
{
    assert forall|k: int| 0 <= k < (x + y).len() implies (x + y)[k] != '\r' by {
        if k < x.len() {
            assert((x + y)[k] == x[k]);
        } else {
            assert((x + y)[k] == y[k - x.len()]);
        }
    }
}

proof fn lemma_entries_text_joined(b: Seq<Seq<char>>)
    requires
        b.len() > 0,
    ensures
        entries_text(b) == joined(b) + seq!['\n'],
    decreases b.len(),
{
    if b.len() == 1 {
        assert(b.drop_last() =~= Seq::<Seq<char>>::empty());
        assert(entries_text(Seq::<Seq<char>>::empty()) == Seq::<char>::empty());
        assert(b.last() == b[0]);
        assert(entries_text(b) =~= joined(b) + seq!['\n']);
    } else {
        lemma_entries_text_joined(b.drop_last());
        assert(entries_text(b) =~= joined(b) + seq!['\n']);
    }
}

/// Lines written one after the other with `\n` after each read back as themselves.
proof fn lemma_lines_entries_text(b: Seq<Seq<char>>)
    requires
        plain_lines(b),
    ensures
        lines(entries_text(b)) == b,
        no_cr(entries_text(b)),
        entries_text(b).len() == 0 || entries_text(b).last() == '\n',
    decreases b.len(),
{
    if b.len() == 0 {
        lemma_lines_single(Seq::<char>::empty());
        assert(lines(entries_text(b)) =~= b);
    } else {
        let d = b.drop_last();
        let l = b.last();
        assert(plain_lines(d)) by {
            assert forall|i: int| 0 <= i < d.len() implies no_newline(#[trigger] d[i]) && no_cr(
                d[i],
            ) by {
                assert(d[i] == b[i]);
            }
        }
        assert(b[b.len() - 1] == l);
        lemma_lines_entries_text(d);
        let t = entries_text(d);
        let ln = l + seq!['\n'];
        assert(entries_text(b) =~= t + ln);
        lemma_lines_concat(t, ln);
        lemma_lines_split(l, Seq::empty());
        assert(l + seq!['\n'] + Seq::<char>::empty() =~= ln);
        lemma_lines_single(Seq::<char>::empty());
        assert(seq![l] + Seq::<Seq<char>>::empty() =~= seq![l]);
        assert(l.len() == 0 || l.last() != '\r') by {
            if l.len() > 0 {
                assert(l.last() == l[l.len() - 1]);
            }
        }
        assert(no_cr(ln)) by {
            assert forall|k: int| 0 <= k < ln.len() implies ln[k] != '\r' by {
                if k < l.len() {
                    assert(ln[k] == l[k]);
                }
            }
        }
        lemma_no_cr_concat(t, ln);
        assert(lines(entries_text(b)) =~= b);
    }
}

/// The head of a rebuilt file reads back as a prefix of the lines it was made of.
proof fn lemma_head_lines(b: Seq<Seq<char>>)
    requires
        plain_lines(b),
        fence_free(b),
    ensures
        fence_free(lines(with_newline(joined(b)))),
        no_cr(with_newline(joined(b))),
        with_newline(joined(b)).len() == 0 || with_newline(joined(b)).last() == '\n',
{
    let h = with_newline(joined(b));
    if b.len() == 0 {
        lemma_lines_single(Seq::<char>::empty());
    } else if b.last().len() > 0 {
        lemma_entries_text_joined(b);
        lemma_lines_entries_text(b);
        assert(joined(b).last() == b.last().last()) by {
            if b.len() == 1 {
                assert(b.last() == b[0]);
            }
        }
        assert(b[b.len() - 1] == b.last());
        assert(b.last().last() == b.last()[b.last().len() - 1]);
        assert(h == entries_text(b));
    } else if b.len() == 1 {
        assert(b.last() == b[0]);
        assert(joined(b) =~= Seq::<char>::empty());
        lemma_lines_single(Seq::<char>::empty());
    } else {
        let d = b.drop_last();
        assert(plain_lines(d) && fence_free(d)) by {
            assert forall|i: int| 0 <= i < d.len() implies no_newline(#[trigger] d[i]) && no_cr(
                d[i],
            ) && d[i] != start_line() && d[i] != end_line() by {
                assert(d[i] == b[i]);
            }
        }
        lemma_entries_text_joined(d);
        lemma_lines_entries_text(d);
        assert(joined(b) =~= joined(d) + seq!['\n']);
        assert(h == entries_text(d));
    }
}

/// The lines outside the block are lines of the file, and none is a fence line.
proof fn lemma_outside_parts(ls: Seq<Seq<char>>, in_section: bool, past: bool)
    ensures
        forall|k: int|
            0 <= k < outside_lines(ls, in_section, past).0.len() ==> {
                let x = #[trigger] outside_lines(ls, in_section, past).0[k];
                x != start_line() && x != end_line() && ls.contains(x)
            },
        forall|k: int|
            0 <= k < outside_lines(ls, in_section, past).1.len() ==> {
                let x = #[trigger] outside_lines(ls, in_section, past).1[k];
                x != start_line() && x != end_line() && ls.contains(x)
            },
    decreases ls.len(),
{
    if ls.len() > 0 {
        let rest = ls.skip(1);
        lemma_outside_parts(rest, true, past);
        lemma_outside_parts(rest, false, true);
        lemma_outside_parts(rest, in_section, past);
        assert forall|x: Seq<char>| rest.contains(x) implies ls.contains(x) by {
            let j = choose|j: int| 0 <= j < rest.len() && rest[j] == x;
            assert(ls[j + 1] == x);
        }
        assert(ls.contains(ls[0]));
        let l = ls[0];
        let o = outside_lines(ls, in_section, past);
        let r = if l == start_line() {
            outside_lines(rest, true, past)
        } else if l == end_line() {
            outside_lines(rest, false, true)
        } else {
            outside_lines(rest, in_section, past)
        };
        assert forall|k: int| 0 <= k < o.0.len() implies {
            let x = #[trigger] o.0[k];
            x != start_line() && x != end_line() && ls.contains(x)
        } by {
            if l != start_line() && l != end_line() && !in_section && !past {
                assert(o.0 == seq![l] + r.0);
                if k > 0 {
                    assert(o.0[k] == r.0[k - 1]);
                    assert(rest.contains(r.0[k - 1]));
                }
            } else {
                assert(o.0 == r.0);
                assert(rest.contains(r.0[k]));
            }
        }
        assert forall|k: int| 0 <= k < o.1.len() implies {
            let x = #[trigger] o.1[k];
            x != start_line() && x != end_line() && ls.contains(x)
        } by {
            if l != start_line() && l != end_line() && !in_section && past {
                assert(o.1 == seq![l] + r.1);
                if k > 0 {
                    assert(o.1[k] == r.1[k - 1]);
                    assert(rest.contains(r.1[k - 1]));
                }
            } else {
                assert(o.1 == r.1);
                assert(rest.contains(r.1[k]));
            }
        }
    }
}

proof fn lemma_entries_in_section(es: Seq<Seq<char>>, rest: Seq<Seq<char>>)
    requires
        forall|i: int| 0 <= i < es.len() ==> plain_entry(#[trigger] es[i]),
    ensures
        section_entries(es + rest, true) == es + section_entries(rest, true),
    decreases es.len(),
{
    reveal_strlit("# >>> git-shadow managed (DO NOT EDIT) >>>");
    reveal_strlit("# <<< git-shadow managed <<<");
    if es.len() == 0 {
        assert(es + rest =~= rest);
        assert(es + section_entries(rest, true) =~= section_entries(rest, true));
    } else {
        let e = es[0];
        assert(plain_entry(e));
        assert(start_line()[0] == '#' && end_line()[0] == '#');
        assert(e != start_line() && e != end_line());
        assert((es + rest)[0] == e);
        assert((es + rest).skip(1) =~= es.skip(1) + rest);
        assert forall|i: int| 0 <= i < es.skip(1).len() implies plain_entry(
            #[trigger] es.skip(1)[i],
        ) by {
            assert(es.skip(1)[i] == es[i + 1]);
        }
        lemma_entries_in_section(es.skip(1), rest);
        assert(seq![e] + (es.skip(1) + section_entries(rest, true)) =~= es + section_entries(
            rest,
            true,
        ));
    }
}

/// The lines of a fenced block that holds `es`, followed by `tail`.
proof fn lemma_block_lines(es: Seq<Seq<char>>, tail: Seq<char>)
    requires
        plain_lines(es),
        no_cr(tail),
    ensures
        lines(fenced_block(es) + tail) == seq![start_line()] + es + seq![end_line()] + lines(tail),
{
    reveal_strlit("# >>> git-shadow managed (DO NOT EDIT) >>>");
    reveal_strlit("# <<< git-shadow managed <<<");
    let sl = start_line();
    let el = end_line();
    assert(sl =~= "# >>> git-shadow managed (DO NOT EDIT) >>>"@);
    assert(el =~= "# <<< git-shadow managed <<<"@);
    assert(no_newline(sl) && no_newline(el) && no_cr(sl) && no_cr(el));
    lemma_lines_entries_text(es);
    let et = entries_text(es);
    let eln = el + seq!['\n'];
    lemma_lines_split(el, Seq::empty());
    assert(el + seq!['\n'] + Seq::<char>::empty() =~= eln);
    lemma_lines_single(Seq::<char>::empty());
    assert(lines(eln) =~= seq![el]);
    assert(no_cr(eln)) by {
        assert forall|k: int| 0 <= k < eln.len() implies eln[k] != '\r' by {
            if k < el.len() {
                assert(eln[k] == el[k]);
            }
        }
    }
    lemma_lines_concat(et, eln + tail);
    lemma_no_cr_concat(eln, tail);
    lemma_lines_concat(eln, tail);
    let inner = et + (eln + tail);
    lemma_lines_split(sl, inner);
    assert(fenced_block(es) + tail =~= sl + seq!['\n'] + inner);
    assert(lines(fenced_block(es) + tail) =~= seq![sl] + es + seq![el] + lines(tail));
}

/// The fenced block that holds `es`.
pub open spec fn fenced_block(es: Seq<Seq<char>>) -> Seq<char> {
    start_line() + seq!['\n'] + entries_text(es) + (end_line() + seq!['\n'])
}

/// What a rebuilt file holds after its block: the lines after the old block.
pub open spec fn tail_text(a: Seq<Seq<char>>) -> Seq<char> {
    if a.len() > 0 {
        with_newline(joined(a))
    } else {
        Seq::empty()
    }
}

proof fn lemma_outside_plain(c: Seq<char>)
    requires
        no_cr(c),
    ensures
        plain_lines(outside_lines(lines(c), false, false).0),
        fence_free(outside_lines(lines(c), false, false).0),
        plain_lines(outside_lines(lines(c), false, false).1),
        fence_free(outside_lines(lines(c), false, false).1),
{
    let ls = lines(c);
    lemma_lines_plain(c);
    let (b, a) = outside_lines(ls, false, false);
    lemma_outside_parts(ls, false, false);
    assert forall|k: int| 0 <= k < b.len() implies no_newline(#[trigger] b[k]) && no_cr(b[k])
        && b[k] != start_line() && b[k] != end_line() by {
        let j = choose|j: int| 0 <= j < ls.len() && ls[j] == b[k];
    }
    assert forall|k: int| 0 <= k < a.len() implies no_newline(#[trigger] a[k]) && no_cr(a[k])
        && a[k] != start_line() && a[k] != end_line() by {
        let j = choose|j: int| 0 <= j < ls.len() && ls[j] == a[k];
    }
}

proof fn lemma_rebuilt_shape(c: Seq<char>, es: Seq<Seq<char>>)
    requires
        es.len() > 0,
    ensures
        ({
            let (b, a) = outside_lines(lines(c), false, false);
            rebuilt(c, es) == with_newline(joined(b)) + fenced_block(es) + tail_text(a)
        }),
{
    let (b, a) = outside_lines(lines(c), false, false);
    let h = with_newline(joined(b));
    let block = fenced_block(es);
    let r = h + block;
    assert(block.last() == '\n');
    assert(h + start_line() + seq!['\n'] + entries_text(es) + end_line() + seq!['\n'] =~= r);
    if a.len() > 0 {
        let j = joined(a);
        if j.len() == 0 {
            assert(r + j =~= r);
            assert(tail_text(a) =~= Seq::<char>::empty());
            assert(r + tail_text(a) =~= r);
        } else {
            assert((r + j).last() == j.last());
            assert(with_newline(r + j) =~= r + with_newline(j));
        }
    } else {
        assert(r + tail_text(a) =~= r);
    }
}

/// Parsing a rebuilt file gives back the entries it was rebuilt with: for a
/// file without carriage returns and a non-empty list of plain entries.
pub proof fn lemma_listed_rebuilt(c: Seq<char>, es: Seq<Seq<char>>)
    requires
        no_cr(c),
        es.len() > 0,
        forall|i: int| 0 <= i < es.len() ==> plain_entry(#[trigger] es[i]),
    ensures
        listed(rebuilt(c, es)) == es,
{
    let (b, a) = outside_lines(lines(c), false, false);
    lemma_outside_plain(c);
    lemma_head_lines(b);
    lemma_head_lines(a);
    let h = with_newline(joined(b));
    let tail = tail_text(a);
    assert(fence_free(lines(tail)) && no_cr(tail)) by {
        if a.len() == 0 {
            lemma_lines_single(Seq::<char>::empty());
        }
    }
    assert(plain_lines(es)) by {
        assert forall|i: int| 0 <= i < es.len() implies no_newline(#[trigger] es[i]) && no_cr(
            es[i],
        ) by {
            assert(plain_entry(es[i]));
        }
    }
    lemma_rebuilt_shape(c, es);
    lemma_block_lines(es, tail);
    let block = fenced_block(es);
    let lt = lines(tail);
    lemma_lines_concat(h, block + tail);
    assert(h + block + tail =~= h + (block + tail));
    let sl = start_line();
    let el = end_line();
    reveal_strlit("# >>> git-shadow managed (DO NOT EDIT) >>>");
    reveal_strlit("# <<< git-shadow managed <<<");
    assert(sl[2] != el[2]);
    let fence = seq![sl] + es + seq![el] + lt;
    lemma_fence_free_prefix(lines(h), fence);
    assert(fence[0] == sl);
    assert(fence.skip(1) =~= es + (seq![el] + lt));
    lemma_entries_in_section(es, seq![el] + lt);
    assert((seq![el] + lt)[0] == el);
    assert((seq![el] + lt).skip(1) =~= lt);
    lemma_fence_free_prefix(lt, Seq::empty());
    assert(lt + Seq::<Seq<char>>::empty() =~= lt);
    assert(section_entries(Seq::<Seq<char>>::empty(), false) == Seq::<Seq<char>>::empty());
    assert(section_entries(seq![el] + lt, true) == section_entries(lt, false));
    assert(section_entries(fence, false) == section_entries(fence.skip(1), true));
    assert(section_entries(fence, false) =~= es);
}

/// Adding an entry that is listed already changes nothing, and adding a new
/// plain entry lists it last, after the entries that were there.
pub proof fn lemma_add_entry_lists(c: Seq<char>, e: Seq<char>)
    requires
        no_cr(c),
        plain_entry(e),
        forall|i: int| 0 <= i < listed(c).len() ==> plain_entry(#[trigger] listed(c)[i]),
    ensures
        listed(c).contains(e) ==> with_entry_added(c, e) is None,
        !listed(c).contains(e) ==> (with_entry_added(c, e) matches Some(t) && listed(t)
            == listed(c).push(e)),
{
    let es = listed(c).push(e);
    assert forall|i: int| 0 <= i < es.len() implies plain_entry(#[trigger] es[i]) by {
        if i < listed(c).len() {
            assert(es[i] == listed(c)[i]);
        }
    }
    lemma_listed_rebuilt(c, es);
}

proof fn lemma_without_keeps_plain(es: Seq<Seq<char>>, e: Seq<char>)
    requires
        forall|i: int| 0 <= i < es.len() ==> plain_entry(#[trigger] es[i]),
    ensures
        forall|i: int| 0 <= i < without(es, e).len() ==> plain_entry(#[trigger] without(es, e)[i]),
    decreases es.len(),
{
    if es.len() > 0 {
        let d = es.drop_last();
        assert forall|i: int| 0 <= i < d.len() implies plain_entry(#[trigger] d[i]) by {
            assert(d[i] == es[i]);
        }
        lemma_without_keeps_plain(d, e);
        assert(plain_entry(es[es.len() - 1]));
        let w = without(es, e);
        assert forall|i: int| 0 <= i < w.len() implies plain_entry(#[trigger] w[i]) by {
            if es.last() != e && i == w.len() - 1 {
                assert(w[i] == es.last());
            } else if es.last() != e {
                assert(w[i] == without(d, e)[i]);
            }
        }
    }
}

/// Removing an entry lists the others, in their order, when some remain.
pub proof fn lemma_remove_entry_lists(c: Seq<char>, e: Seq<char>)
    requires
        no_cr(c),
        forall|i: int| 0 <= i < listed(c).len() ==> plain_entry(#[trigger] listed(c)[i]),
        without(listed(c), e).len() > 0,
    ensures
        listed(with_entry_removed(c, e)) == without(listed(c), e),
{
    lemma_without_keeps_plain(listed(c), e);
    lemma_listed_rebuilt(c, without(listed(c), e));
}

} // verus!
