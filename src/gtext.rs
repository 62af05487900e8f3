use vstd::prelude::*;
use vstd::slice::slice_subrange;

use crate::chars::{is_blank, is_blank_text};
use crate::text::text_views;

verus! {

broadcast use vstd::string::group_string_axioms;

/// How the display advances after a line.
#[derive(Debug, Clone, Copy, PartialEq, Eq, Structural)]
pub enum GTextLineBreak {
    /// More text follows at once, on the next line of the same box.
    NewLine,
    /// The box scrolls up by one line before more text follows.
    NewLineWithScroll,
    /// The box is cleared for a new paragraph.
    NewParagraph,
    /// The end of the whole text.
    End,
}

/// The control code that a marker is written as.
pub open spec fn marker_code(m: GTextLineBreak) -> Seq<char> {
    match m {
        GTextLineBreak::NewLine => seq!['\\', 'n'],
        GTextLineBreak::NewLineWithScroll => seq!['\\', 'l'],
        GTextLineBreak::NewParagraph => seq!['\\', 'p'],
        GTextLineBreak::End => seq!['$'],
    }
}

impl GTextLineBreak {
    /// The marker's control code: `\n`, `\l`, `\p` or `$`.
    pub fn code(&self) -> (r: &'static str)
        ensures
            r@ == marker_code(*self),
    {
        match self {
            GTextLineBreak::NewLine => {
                proof {
                    reveal_strlit("\\n");
                }
                "\\n"
            },
            GTextLineBreak::NewLineWithScroll => {
                proof {
                    reveal_strlit("\\l");
                }
                "\\l"
            },
            GTextLineBreak::NewParagraph => {
                proof {
                    reveal_strlit("\\p");
                }
                "\\p"
            },
            GTextLineBreak::End => {
                proof {
                    reveal_strlit("$");
                }
                "$"
            },
        }
    }
}

/// One line of a block and the marker that follows it.
#[derive(Debug, PartialEq, Eq)]
pub struct GTextEntry {
    pub text: String,
    pub line_break: GTextLineBreak,
}

/// A named block of entries.
#[derive(Debug)]
pub struct GTextBlock {
    pub name: String,
    pub entries: Vec<GTextEntry>,
}

pub open spec fn entry_views(v: Seq<GTextEntry>) -> Seq<(Seq<char>, GTextLineBreak)> {
    v.map_values(|e: GTextEntry| (e.text@, e.line_break))
}

/// Drops the blank lines at the front.
pub open spec fn trim_front(s: Seq<Seq<char>>) -> Seq<Seq<char>>
    decreases s.len(),
{
    if s.len() > 0 && is_blank_text(s[0]) {
        trim_front(s.skip(1))
    } else {
        s
    }
}

/// Drops the blank lines at the back.
pub open spec fn trim_back(s: Seq<Seq<char>>) -> Seq<Seq<char>>
    decreases s.len(),
{
    if s.len() > 0 && is_blank_text(s.last()) {
        trim_back(s.drop_last())
    } else {
        s
    }
}

/// The lines without the blank ones at either end.
pub open spec fn trimmed(s: Seq<Seq<char>>) -> Seq<Seq<char>> {
    trim_back(trim_front(s))
}

/// The marker of the non-blank line `t[i]`, from the blankness of its neighbours.
pub open spec fn marker_at(t: Seq<Seq<char>>, i: int) -> GTextLineBreak {
    if i == t.len() - 1 {
        GTextLineBreak::End
    } else if i == 0 || is_blank_text(t[i - 1]) {
        if is_blank_text(t[i + 1]) {
            GTextLineBreak::NewParagraph
        } else {
            GTextLineBreak::NewLine
        }
    } else if !is_blank_text(t[i + 1]) {
        GTextLineBreak::NewLineWithScroll
    } else {
        GTextLineBreak::NewParagraph
    }
}

/// The entries for the non-blank lines among the first `k` lines of `t`.
pub open spec fn entries_upto(t: Seq<Seq<char>>, k: int) -> Seq<(Seq<char>, GTextLineBreak)>
    decreases k,
{
    if k <= 0 {
        Seq::empty()
    } else if is_blank_text(t[k - 1]) {
        entries_upto(t, k - 1)
    } else {
        entries_upto(t, k - 1).push((t[k - 1], marker_at(t, k - 1)))
    }
}

/// The entries of the block built from `lines`: those of the trimmed lines, or one empty
/// entry that ends the text where no line has any.
pub open spec fn block_entries(lines: Seq<Seq<char>>) -> Seq<(Seq<char>, GTextLineBreak)> {
    let t = trimmed(lines);
    let e = entries_upto(t, t.len() as int);
    if e.len() == 0 {
        seq![(Seq::<char>::empty(), GTextLineBreak::End)]
    } else {
        e
    }
}

/// A sequence of entries that ends the text exactly once, at its last entry.
pub open spec fn terminated(e: Seq<(Seq<char>, GTextLineBreak)>) -> bool {
    &&& e.len() > 0
    &&& e.last().1 == GTextLineBreak::End
    &&& forall|j: int| 0 <= j < e.len() - 1 ==> (#[trigger] e[j]).1 != GTextLineBreak::End
}

impl GTextBlock {
    /// The block has entries, and only its last one ends the text.
    pub open spec fn wf(&self) -> bool {
        terminated(entry_views(self.entries@))
    }

    /// Builds a block from lines that are wrapped already. Blank lines at either end are
    /// dropped; the other blank lines only separate paragraphs and give no entry.
    pub fn from_plain_text(lines: &[String], name: &str) -> (r: GTextBlock)
        ensures
            r.name@ == name@,
            entry_views(r.entries@) == block_entries(text_views(lines@)),
            r.entries@.len() >= 1,
            r.wf(),
    {
        let t = trim_empty_lines(lines);
        let ghost tv = text_views(t@);
        let n = t.len();
        let mut blank: Vec<bool> = Vec::new();
        let mut i: usize = 0;
        while i < n
            invariant
                i <= n,
                n == t@.len(),
                tv == text_views(t@),
                blank@.len() == i,
                forall|j: int| 0 <= j < i ==> blank@[j] == is_blank_text(#[trigger] tv[j]),
            decreases n - i,
        {
            blank.push(is_blank(t[i].as_str()));
            i += 1;
        }
        let mut entries: Vec<GTextEntry> = Vec::new();
        i = 0;
        while i < n
            invariant
                i <= n,
                n == t@.len(),
                tv == text_views(t@),
                tv.len() == n,
                blank@.len() == n,
                forall|j: int| 0 <= j < n ==> blank@[j] == is_blank_text(#[trigger] tv[j]),
                entry_views(entries@) == entries_upto(tv, i as int),
            decreases n - i,
        {
            if !blank[i] {
                let line_break = if i == n - 1 {
                    GTextLineBreak::End
                } else if i == 0 || blank[i - 1] {
                    if blank[i + 1] {
                        GTextLineBreak::NewParagraph
                    } else {
                        GTextLineBreak::NewLine
                    }
                } else if !blank[i + 1] {
                    GTextLineBreak::NewLineWithScroll
                } else {
                    GTextLineBreak::NewParagraph
                };
                let ghost before = entry_views(entries@);
                let e = GTextEntry { text: t[i].clone(), line_break };
                entries.push(e);
                proof {
                    assert(entry_views(entries@) =~= before.push((tv[i as int], line_break)));
                }
            }
            i += 1;
        }
        if entries.len() == 0 {
            entries.push(GTextEntry { text: String::new(), line_break: GTextLineBreak::End });
            proof {
                assert(entry_views(entries@) =~= seq![
                    (Seq::<char>::empty(), GTextLineBreak::End),
                ]);
            }
        }
        proof {
            lemma_block_terminated(text_views(lines@));
        }
        GTextBlock { name: name.to_owned(), entries }
    }
}

/// The lines without the blank ones at either end.
fn trim_empty_lines(lines: &[String]) -> (r: &[String])
    ensures
        text_views(r@) == trimmed(text_views(lines@)),
{
    let ghost v = text_views(lines@);
    let n = lines.len();
    let mut start: usize = 0;
    proof {
        assert(v.skip(0) =~= v);
    }
    while start < n && is_blank(lines[start].as_str())
        invariant
            start <= n,
            n == lines@.len(),
            v == text_views(lines@),
            trim_front(v) == trim_front(v.skip(start as int)),
        decreases n - start,
    {
        proof {
            let s = v.skip(start as int);
            assert(s[0] == v[start as int]);
            assert(s.skip(1) =~= v.skip(start as int + 1));
        }
        start += 1;
    }
    let mut end: usize = n;
    proof {
        assert(v.subrange(start as int, n as int) =~= v.skip(start as int));
    }
    while end > start && is_blank(lines[end - 1].as_str())
        invariant
            start <= end <= n,
            n == lines@.len(),
            v == text_views(lines@),
            trim_front(v) == v.skip(start as int),
            trim_back(v.skip(start as int)) == trim_back(v.subrange(start as int, end as int)),
        decreases end,
    {
        proof {
            let s = v.subrange(start as int, end as int);
            assert(s.last() == v[end - 1]);
            assert(s.drop_last() =~= v.subrange(start as int, end - 1));
        }
        end -= 1;
    }
    let r = slice_subrange(lines, start, end);
    proof {
        assert(text_views(r@) =~= v.subrange(start as int, end as int));
    }
    r
}

proof fn lemma_trim_back_last(s: Seq<Seq<char>>)
    ensures
        trim_back(s).len() > 0 ==> !is_blank_text(trim_back(s).last()),
    decreases s.len(),
{
    if s.len() > 0 && is_blank_text(s.last()) {
        lemma_trim_back_last(s.drop_last());
    }
}

proof fn lemma_entries_not_end(t: Seq<Seq<char>>, k: int)
    requires
        0 <= k < t.len(),
    ensures
        forall|j: int|
            0 <= j < entries_upto(t, k).len() ==> (#[trigger] entries_upto(t, k)[j]).1
                != GTextLineBreak::End,
    decreases k,
{
    if k > 0 {
        lemma_entries_not_end(t, k - 1);
    }
}

/// Whatever the lines, the block built from them has at least one entry; exactly one
/// entry ends the text, and it is the last.
pub proof fn lemma_block_terminated(lines: Seq<Seq<char>>)
    ensures
        terminated(block_entries(lines)),
{
    let t = trimmed(lines);
    let n = t.len() as int;
    if n > 0 {
        lemma_trim_back_last(trim_front(lines));
        lemma_entries_not_end(t, n - 1);
        let e = entries_upto(t, n);
        assert(e == entries_upto(t, n - 1).push((t[n - 1], marker_at(t, n - 1))));
        assert forall|j: int| 0 <= j < e.len() - 1 implies (#[trigger] e[j]).1
            != GTextLineBreak::End by {
            assert(e[j] == entries_upto(t, n - 1)[j]);
        }
    }
}

/// The line that an entry is written as: `\t.string "<text><code>"`.
pub open spec fn entry_line(text: Seq<char>, m: GTextLineBreak) -> Seq<char> {
    seq!['\t', '.', 's', 't', 'r', 'i', 'n', 'g', ' ', '"'] + text + marker_code(m) + seq!['"']
}

/// The lines of entries `e`, each followed by a newline.
pub open spec fn entry_lines(e: Seq<(Seq<char>, GTextLineBreak)>) -> Seq<char>
    decreases e.len(),
{
    if e.len() == 0 {
        Seq::empty()
    } else {
        entry_lines(e.drop_last()) + entry_line(e.last().0, e.last().1) + seq!['\n']
    }
}

/// The text of a block: the header `gText_<name>::`, then one line per entry.
pub open spec fn block_text(name: Seq<char>, e: Seq<(Seq<char>, GTextLineBreak)>) -> Seq<char> {
    seq!['g', 'T', 'e', 'x', 't', '_'] + name + seq![':', ':', '\n'] + entry_lines(e)
}

impl GTextEntry {
    /// The entry as a line of the block's text.
    pub fn to_line(&self) -> (r: String)
        ensures
            r@ == entry_line(self.text@, self.line_break),
    {
        proof {
            reveal_strlit("\t.string \"");
            reveal_strlit("\"");
        }
        let mut out = "\t.string \"".to_owned();
        out.append(self.text.as_str());
        out.append(self.line_break.code());
        out.append("\"");
        proof {
            assert(out@ =~= entry_line(self.text@, self.line_break));
        }
        out
    }
}

impl GTextBlock {
    /// The block as text.
    pub fn to_string(&self) -> (r: String)
        ensures
            r@ == block_text(self.name@, entry_views(self.entries@)),
    {
        proof {
            reveal_strlit("gText_");
            reveal_strlit("::\n");
            reveal_strlit("\n");
        }
        let mut out = "gText_".to_owned();
        out.append(self.name.as_str());
        out.append("::\n");
        let ghost head = out@;
        let ghost ev = entry_views(self.entries@);
        let mut i: usize = 0;
        proof {
            assert(ev.subrange(0, 0) =~= Seq::<(Seq<char>, GTextLineBreak)>::empty());
            assert(out@ =~= head + entry_lines(ev.subrange(0, 0)));
        }
        while i < self.entries.len()
            invariant
                i <= self.entries@.len(),
                ev == entry_views(self.entries@),
                out@ == head + entry_lines(ev.subrange(0, i as int)),
            decreases self.entries@.len() - i,
        {
            proof {
                reveal_strlit("\n");
            }
            let line = self.entries[i].to_line();
            out.append(line.as_str());
            out.append("\n");
            proof {
                let p = ev.subrange(0, i as int + 1);
                assert(p.drop_last() =~= ev.subrange(0, i as int));
                assert(p.last() == ev[i as int]);
                let ent = self.entries@[i as int];
                assert(ev[i as int] == (ent.text@, ent.line_break));
                assert(entry_lines(p) == entry_lines(ev.subrange(0, i as int)) + entry_line(
                    ev[i as int].0,
                    ev[i as int].1,
                ) + seq!['\n']);
                assert(out@ =~= head + entry_lines(p));
            }
            i += 1;
        }
        proof {
            assert(ev.subrange(0, ev.len() as int) =~= ev);
            assert(out@ =~= block_text(self.name@, ev));
        }
        out
    }
}

} // verus!
