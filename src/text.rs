use vstd::prelude::*;

use crate::chars::{char_is_whitespace, chars_of, is_space_char, string_from_chars};

verus! {

/// What can go wrong while choosing a font or measuring text.
#[derive(Debug, PartialEq, Eq)]
pub enum TextError {
    /// No font with this id is in the configuration.
    FontNotFound(String),
    /// This character has no width in the font's table.
    MissingGlyphWidth(char),
}

/// A font as the line wrapper sees it: the widest a line may be, and a table of glyph widths
/// that holds at most one entry for each character.
pub struct Font {
    max_line_length: usize,
    widths: Vec<(char, usize)>,
}

/// No two entries of `table` are for the same character.
pub open spec fn unique_keys(table: Seq<(char, usize)>) -> bool {
    forall|i: int, j: int| 0 <= i < j < table.len() ==> (#[trigger] table[i]).0 != (
    #[trigger] table[j]).0
}

/// The width that `table` gives to `c`, from the last entry for `c`.
pub open spec fn glyph_in(table: Seq<(char, usize)>, c: char) -> Option<usize>
    decreases table.len(),
{
    if table.len() == 0 {
        None
    } else if table.last().0 == c {
        Some(table.last().1)
    } else {
        glyph_in(table.drop_last(), c)
    }
}

impl Font {
    #[verifier::type_invariant]
    spec fn inv(self) -> bool {
        unique_keys(self.widths@)
    }

    pub closed spec fn max_width(&self) -> nat {
        self.max_line_length as nat
    }

    pub closed spec fn table(&self) -> Seq<(char, usize)> {
        self.widths@
    }

    pub open spec fn glyph_width(&self, c: char) -> Option<usize> {
        glyph_in(self.table(), c)
    }

    /// The font with this limit and table, or `None` where the table has two entries for
    /// one character.
    pub fn new(max_line_length: usize, widths: Vec<(char, usize)>) -> (r: Option<Font>)
        ensures
            r is Some <==> unique_keys(widths@),
            r matches Some(f) ==> f.max_width() == max_line_length && f.table() == widths@,
    {
        let mut i: usize = 0;
        while i < widths.len()
            invariant
                i <= widths@.len(),
                forall|a: int, b: int| 0 <= a < b < widths@.len() && a < i ==> (
                #[trigger] widths@[a]).0 != (#[trigger] widths@[b]).0,
            decreases widths@.len() - i,
        {
            let mut j: usize = i + 1;
            while j < widths.len()
                invariant
                    i < widths@.len(),
                    i + 1 <= j <= widths@.len(),
                    forall|a: int, b: int| 0 <= a < b < widths@.len() && a < i ==> (
                    #[trigger] widths@[a]).0 != (#[trigger] widths@[b]).0,
                    forall|b: int| i < b < j ==> widths@[i as int].0 != (#[trigger] widths@[b]).0,
                decreases widths@.len() - j,
            {
                if widths[i].0 == widths[j].0 {
                    return None;
                }
                j += 1;
            }
            i += 1;
        }
        Some(Font { max_line_length, widths })
    }

    pub fn max_line_length(&self) -> (r: usize)
        ensures
            r == self.max_width(),
    {
        self.max_line_length
    }

    /// The width of glyph `c`: that of the entry for `c`, or `None` where there is none.
    pub fn width_of(&self, c: char) -> (r: Option<usize>)
        ensures
            unique_keys(self.table()),
            r == self.glyph_width(c),
            match r {
                Some(w) => exists|i: int|
                    0 <= i < self.table().len() && #[trigger] self.table()[i] == (c, w),
                None => forall|i: int|
                    0 <= i < self.table().len() ==> (#[trigger] self.table()[i]).0 != c,
            },
    {
        proof {
            use_type_invariant(&*self);
        }
        let mut i: usize = self.widths.len();
        proof {
            assert(self.widths@.subrange(0, i as int) =~= self.widths@);
        }
        while i > 0
            invariant
                i <= self.widths@.len(),
                glyph_in(self.widths@, c) == glyph_in(self.widths@.subrange(0, i as int), c),
                forall|j: int| i <= j < self.widths@.len() ==> (#[trigger] self.widths@[j]).0 != c,
                unique_keys(self.table()),
            decreases i,
        {
            let e = self.widths[i - 1];
            proof {
                let t = self.widths@.subrange(0, i as int);
                assert(t.last() == e);
                assert(t.drop_last() =~= self.widths@.subrange(0, i - 1));
            }
            if e.0 == c {
                proof {
                    assert(self.table()[i - 1] == (c, e.1));
                }
                return Some(e.1);
            }
            i -= 1;
        }
        proof {
            assert forall|j: int| 0 <= j < self.table().len() implies (
            #[trigger] self.table()[j]).0 != c by {
                assert(self.table()[j] == self.widths@[j]);
            }
        }
        None
    }
}

/// The fonts on offer, by id, and the one to use when no id is asked for.
pub struct FontConfig {
    pub default_font_id: String,
    pub fonts: Vec<(String, Font)>,
}

impl FontConfig {
    /// No two fonts have the same id.
    pub open spec fn wf(&self) -> bool {
        forall|i: int, j: int|
            0 <= i < j < self.fonts@.len() ==> (#[trigger] self.fonts@[i]).0@ != (
            #[trigger] self.fonts@[j]).0@
    }

    /// The id that `get_font(font_id)` looks up.
    pub open spec fn requested_id(&self, font_id: Option<&str>) -> Seq<char> {
        match font_id {
            Some(s) => s@,
            None => self.default_font_id@,
        }
    }

    /// The font with the given id, or with the default id where none is given. In a
    /// well-formed configuration that font is the only one with the id; otherwise the first
    /// one counts.
    pub fn get_font(&self, font_id: Option<&str>) -> (r: Result<&Font, TextError>)
        ensures
            ({
                let id = self.requested_id(font_id);
                match r {
                    Ok(f) => exists|i: int|
                        0 <= i < self.fonts@.len() && (#[trigger] self.fonts@[i]).0@ == id && *f
                            == self.fonts@[i].1 && forall|j: int|
                            0 <= j < i ==> (#[trigger] self.fonts@[j]).0@ != id,
                    Err(TextError::FontNotFound(name)) => name@ == id && forall|i: int|
                        0 <= i < self.fonts@.len() ==> (#[trigger] self.fonts@[i]).0@ != id,
                    Err(_) => false,
                }
            }),
            self.wf() ==> match r {
                Ok(f) => forall|i: int|
                    0 <= i < self.fonts@.len() && (#[trigger] self.fonts@[i]).0@
                        == self.requested_id(font_id) ==> *f == self.fonts@[i].1,
                Err(_) => true,
            },
    {
        let id: String = match font_id {
            Some(s) => s.to_owned(),
            None => self.default_font_id.clone(),
        };
        let mut i: usize = 0;
        while i < self.fonts.len()
            invariant
                i <= self.fonts@.len(),
                id@ == self.requested_id(font_id),
                forall|j: int| 0 <= j < i ==> (#[trigger] self.fonts@[j]).0@ != id@,
            decreases self.fonts@.len() - i,
        {
            if self.fonts[i].0 == id {
                return Ok(&self.fonts[i].1);
            }
            i += 1;
        }
        Err(TextError::FontNotFound(id))
    }
}

/// How wide a line may be: a number of characters, or a font's pixel width.
#[derive(Clone, Copy)]
pub enum LineBudget<'a> {
    MaxChars(usize),
    Glyphs(&'a Font),
}

/// The bound that no line of several words reaches.
pub open spec fn limit(b: LineBudget) -> int {
    match b {
        LineBudget::MaxChars(n) => n as int,
        LineBudget::Glyphs(f) => f.max_width() as int,
    }
}

/// Whether the budget gives `c` a width.
pub open spec fn measures(b: LineBudget, c: char) -> bool {
    match b {
        LineBudget::MaxChars(_) => true,
        LineBudget::Glyphs(f) => f.glyph_width(c) is Some,
    }
}

/// The width of one character: one in a character count, its glyph width in a font.
pub open spec fn char_width(b: LineBudget, c: char) -> int {
    match b {
        LineBudget::MaxChars(_) => 1,
        LineBudget::Glyphs(f) => match f.glyph_width(c) {
            Some(w) => w as int,
            None => 0,
        },
    }
}

/// The rendered width of a text: the sum of its characters' widths.
pub open spec fn text_width(b: LineBudget, s: Seq<char>) -> int
    decreases s.len(),
{
    if s.len() == 0 {
        0
    } else {
        text_width(b, s.drop_last()) + char_width(b, s.last())
    }
}

pub open spec fn measurable(b: LineBudget, s: Seq<char>) -> bool {
    forall|i: int| 0 <= i < s.len() ==> measures(b, #[trigger] s[i])
}

pub open spec fn capped(x: int, cap: int) -> int {
    if x < cap {
        x
    } else {
        cap
    }
}

/// The whitespace-separated words of `s`, where `cur` is a word already begun.
pub open spec fn words_from(s: Seq<char>, cur: Seq<char>) -> Seq<Seq<char>>
    decreases s.len(),
{
    let done = if cur.len() > 0 {
        seq![cur]
    } else {
        Seq::<Seq<char>>::empty()
    };
    if s.len() == 0 {
        done
    } else if is_space_char(s[0]) {
        done + words_from(s.skip(1), Seq::empty())
    } else {
        words_from(s.skip(1), cur.push(s[0]))
    }
}

/// The words of `s`: its maximal runs of non-whitespace characters, in order.
pub open spec fn words(s: Seq<char>) -> Seq<Seq<char>> {
    words_from(s, Seq::empty())
}

/// Greedy wrapping of the words `ws` onto lines, where `cur` is the line being filled and
/// `run` its width so far. A word goes on a new line when the current one holds words
/// already and one space and the word would bring it to the limit; else it joins the
/// current line after one space.
pub open spec fn wrap_from(b: LineBudget, ws: Seq<Seq<char>>, cur: Seq<char>, run: int) -> Seq<
    Seq<char>,
>
    decreases ws.len(),
{
    if ws.len() == 0 {
        seq![cur]
    } else {
        let w = ws[0];
        let ww = text_width(b, w);
        if cur.len() > 0 && run + char_width(b, ' ') + ww >= limit(b) {
            seq![cur] + wrap_from(b, ws.skip(1), w, ww)
        } else if cur.len() > 0 {
            wrap_from(b, ws.skip(1), cur + seq![' '] + w, run + char_width(b, ' ') + ww)
        } else {
            wrap_from(b, ws.skip(1), w, ww)
        }
    }
}

/// The lines that wrapping `s` under `b` gives; a blank `s` gives one empty line.
pub open spec fn wrapped(b: LineBudget, s: Seq<char>) -> Seq<Seq<char>> {
    wrap_from(b, words(s), Seq::empty(), 0)
}

/// Wrapping `s` succeeds when the space and every character of every word have a width.
pub open spec fn wrap_ok(b: LineBudget, s: Seq<char>) -> bool {
    measures(b, ' ') && forall|k: int|
        0 <= k < words(s).len() ==> measurable(b, #[trigger] words(s)[k])
}

/// `c` is the character that wrapping `s` fails on: the space, when it has no width;
/// else the first character, word by word, that has none.
pub open spec fn first_unmeasured(b: LineBudget, s: Seq<char>, c: char) -> bool {
    let ws = words(s);
    if !measures(b, ' ') {
        c == ' '
    } else {
        exists|k: int, i: int|
            0 <= k < ws.len() && 0 <= i < ws[k].len() && #[trigger] ws[k][i] == c && !measures(
                b,
                c,
            ) && (forall|k2: int| 0 <= k2 < k ==> measurable(b, #[trigger] ws[k2])) && (forall|
                i2: int,
            |
                0 <= i2 < i ==> measures(b, #[trigger] ws[k][i2]))
    }
}

pub open spec fn text_views(v: Seq<String>) -> Seq<Seq<char>> {
    v.map_values(|l: String| l@)
}

pub open spec fn char_views(v: Seq<Vec<char>>) -> Seq<Seq<char>> {
    v.map_values(|w: Vec<char>| w@)
}

fn measure_char(b: LineBudget, c: char) -> (r: Option<usize>)
    ensures
        (r is Some) == measures(b, c),
        r matches Some(w) ==> w as int == char_width(b, c),
{
    match b {
        LineBudget::MaxChars(_) => Some(1),
        LineBudget::Glyphs(f) => f.width_of(c),
    }
}

fn budget_limit(b: LineBudget) -> (r: usize)
    ensures
        r as int == limit(b),
{
    match b {
        LineBudget::MaxChars(n) => n,
        LineBudget::Glyphs(f) => f.max_line_length(),
    }
}

/// The width of word `w`, capped at the limit, or the first character without a width.
fn word_width(b: LineBudget, w: &[char]) -> (r: Result<usize, char>)
    ensures
        match r {
            Ok(x) => measurable(b, w@) && x as int == capped(text_width(b, w@), limit(b)),
            Err(c) => exists|i: int|
                0 <= i < w@.len() && w@[i] == c && !measures(b, c) && forall|j: int|
                    0 <= j < i ==> measures(b, #[trigger] w@[j]),
        },
{
    let cap = budget_limit(b);
    let mut acc: usize = 0;
    let mut i: usize = 0;
    proof {
        assert(w@.subrange(0, 0) =~= Seq::<char>::empty());
    }
    while i < w.len()
        invariant
            i <= w@.len(),
            cap as int == limit(b),
            acc as int == capped(text_width(b, w@.subrange(0, i as int)), limit(b)),
            forall|j: int| 0 <= j < i ==> measures(b, #[trigger] w@[j]),
        decreases w@.len() - i,
    {
        let c = w[i];
        let cw = match measure_char(b, c) {
            Some(x) => x,
            None => {
                return Err(c);
            },
        };
        proof {
            let t = w@.subrange(0, i as int + 1);
            assert(t.drop_last() =~= w@.subrange(0, i as int));
            assert(t.last() == c);
        }
        if acc >= cap || cw >= cap - acc {
            acc = cap;
        } else {
            acc = acc + cw;
        }
        i += 1;
    }
    proof {
        assert(w@.subrange(0, w@.len() as int) =~= w@);
    }
    Ok(acc)
}

fn append_chars(dst: &mut Vec<char>, src: &[char])
    ensures
        final(dst)@ == old(dst)@ + src@,
{
    let mut i: usize = 0;
    while i < src.len()
        invariant
            i <= src@.len(),
            dst@ == old(dst)@ + src@.subrange(0, i as int),
        decreases src@.len() - i,
    {
        dst.push(src[i]);
        proof {
            assert(old(dst)@ + src@.subrange(0, i as int + 1) =~= (old(dst)@ + src@.subrange(
                0,
                i as int,
            )).push(src@[i as int]));
        }
        i += 1;
    }
    proof {
        assert(src@.subrange(0, src@.len() as int) =~= src@);
    }
}

/// The words of `cs`.
fn split_words(cs: &[char]) -> (r: Vec<Vec<char>>)
    ensures
        char_views(r@) == words(cs@),
{
    let mut out: Vec<Vec<char>> = Vec::new();
    let mut cur: Vec<char> = Vec::new();
    let mut i: usize = 0;
    proof {
        assert(cs@.skip(0) =~= cs@);
        assert(char_views(out@) + words_from(cs@.skip(0), cur@) =~= words(cs@));
    }
    while i < cs.len()
        invariant
            i <= cs@.len(),
            char_views(out@) + words_from(cs@.skip(i as int), cur@) == words(cs@),
        decreases cs@.len() - i,
    {
        let c = cs[i];
        let ghost rest = cs@.skip(i as int);
        proof {
            assert(rest[0] == c);
            assert(rest.skip(1) =~= cs@.skip(i as int + 1));
        }
        if char_is_whitespace(c) {
            if cur.len() > 0 {
                let ghost before = char_views(out@);
                let ghost word = cur@;
                out.push(cur);
                cur = Vec::new();
                proof {
                    assert(char_views(out@) =~= before.push(word));
                    assert(before + (seq![word] + words_from(cs@.skip(i as int + 1), cur@))
                        =~= char_views(out@) + words_from(cs@.skip(i as int + 1), cur@));
                }
            } else {
                proof {
                    assert(cur@ =~= Seq::<char>::empty());
                    assert(Seq::<Seq<char>>::empty() + words_from(cs@.skip(i as int + 1), Seq::empty())
                        =~= words_from(cs@.skip(i as int + 1), cur@));
                }
            }
        } else {
            cur.push(c);
        }
        i += 1;
    }
    proof {
        assert(cs@.skip(i as int) =~= Seq::<char>::empty());
    }
    if cur.len() > 0 {
        let ghost before = char_views(out@);
        let ghost word = cur@;
        out.push(cur);
        proof {
            assert(char_views(out@) =~= before + seq![word]);
        }
    } else {
        proof {
            assert(char_views(out@) + Seq::<Seq<char>>::empty() =~= char_views(out@));
        }
    }
    out
}


/// Wraps one line of text into lines under `budget`: each word goes on the current line
/// after one space, unless the line holds words already and the space and the word would
/// bring it to the limit; then it starts a new line. A word wider than the limit stands alone on its
/// line. A blank input gives one empty line.
pub fn wrap_line(input: &str, budget: LineBudget) -> (r: Result<Vec<String>, TextError>)
    ensures
        match r {
            Ok(lines) => wrap_ok(budget, input@) && text_views(lines@) == wrapped(budget, input@),
            Err(TextError::MissingGlyphWidth(c)) => !wrap_ok(budget, input@) && first_unmeasured(
                budget,
                input@,
                c,
            ),
            Err(_) => false,
        },
{
    let space = match measure_char(budget, ' ') {
        Some(w) => w,
        None => {
            return Err(TextError::MissingGlyphWidth(' '));
        },
    };
    let cap = budget_limit(budget);
    let cs = chars_of(input);
    let ws = split_words(cs.as_slice());
    let ghost all = words(input@);
    let mut out: Vec<String> = Vec::new();
    let mut cur: Vec<char> = Vec::new();
    let mut run: usize = 0;
    let ghost mut run_s: int = 0;
    let mut k: usize = 0;
    proof {
        assert(all.skip(0) =~= all);
        assert(text_views(out@) + wrap_from(budget, all.skip(0), cur@, run_s) =~= wrapped(
            budget,
            input@,
        ));
    }
    while k < ws.len()
        invariant
            k <= ws@.len(),
            char_views(ws@) == all,
            all == words(input@),
            measures(budget, ' '),
            space as int == char_width(budget, ' '),
            cap as int == limit(budget),
            run_s >= 0,
            run as int == capped(run_s, limit(budget)),
            forall|j: int| 0 <= j < k ==> measurable(budget, #[trigger] all[j]),
            text_views(out@) + wrap_from(budget, all.skip(k as int), cur@, run_s) == wrapped(
                budget,
                input@,
            ),
        decreases ws@.len() - k,
    {
        let w = ws[k].as_slice();
        proof {
            assert(all[k as int] == w@);
        }
        let ww = match word_width(budget, w) {
            Ok(x) => x,
            Err(c) => {
                proof {
                    assert(!measurable(budget, all[k as int]));
                }
                return Err(TextError::MissingGlyphWidth(c));
            },
        };
        let ghost ww_s = text_width(budget, w@);
        let ghost rest = all.skip(k as int);
        let ghost before = text_views(out@);
        proof {
            lemma_text_width_nonneg(budget, w@);
            assert(rest[0] == w@);
            assert(rest.skip(1) =~= all.skip(k as int + 1));
        }
        if cur.len() > 0 && (run as u128) + (space as u128) + (ww as u128) >= (cap as u128) {
            let line = string_from_chars(cur.as_slice());
            out.push(line);
            let mut next: Vec<char> = Vec::new();
            append_chars(&mut next, w);
            cur = next;
            run = ww;
            proof {
                run_s = ww_s;
                assert(text_views(out@) =~= before.push(line@));
                assert(before + (seq![line@] + wrap_from(budget, all.skip(k as int + 1), cur@, run_s))
                    =~= text_views(out@) + wrap_from(budget, all.skip(k as int + 1), cur@, run_s));
            }
        } else if cur.len() > 0 {
            let ghost old_cur = cur@;
            cur.push(' ');
            append_chars(&mut cur, w);
            let total: u128 = (run as u128) + (space as u128) + (ww as u128);
            if total >= cap as u128 {
                run = cap;
            } else {
                run = total as usize;
            }
            proof {
                run_s = run_s + space + ww_s;
                assert(cur@ =~= old_cur + seq![' '] + w@);
            }
        } else {
            let mut next: Vec<char> = Vec::new();
            append_chars(&mut next, w);
            cur = next;
            run = ww;
            proof {
                run_s = ww_s;
            }
        }
        k += 1;
    }
    let line = string_from_chars(cur.as_slice());
    let ghost before = text_views(out@);
    out.push(line);
    proof {
        assert(all.skip(k as int) =~= Seq::<Seq<char>>::empty());
        assert(text_views(out@) =~= before.push(line@));
        assert(before + seq![cur@] =~= text_views(out@));
        assert forall|j: int| 0 <= j < all.len() implies measurable(budget, #[trigger] all[j]) by {}
    }
    Ok(out)
}

/// Wraps one line of text under the pixel budget of `font`.
pub fn split_line(input: &str, font: &Font) -> (r: Result<Vec<String>, TextError>)
    ensures
        match r {
            Ok(lines) => wrap_ok(LineBudget::Glyphs(font), input@) && text_views(lines@)
                == wrapped(LineBudget::Glyphs(font), input@),
            Err(TextError::MissingGlyphWidth(c)) => !wrap_ok(LineBudget::Glyphs(font), input@)
                && first_unmeasured(LineBudget::Glyphs(font), input@, c),
            Err(_) => false,
        },
{
    wrap_line(input, LineBudget::Glyphs(font))
}

/// Wraps each of `lines` under `budget` and puts the lines that come out one after the
/// other. Fails on the first line that cannot be wrapped.
pub fn wrap_lines(lines: &[String], budget: LineBudget) -> (r: Result<Vec<String>, TextError>)
    ensures
        match r {
            Ok(out) => (forall|i: int|
                0 <= i < lines@.len() ==> wrap_ok(budget, (#[trigger] lines@[i])@)) && text_views(
                out@,
            ) == rewrapped(budget, text_views(lines@)),
            Err(TextError::MissingGlyphWidth(c)) => exists|i: int|
                0 <= i < lines@.len() && !wrap_ok(budget, (#[trigger] lines@[i])@)
                    && first_unmeasured(budget, lines@[i]@, c) && forall|j: int|
                    0 <= j < i ==> wrap_ok(budget, (#[trigger] lines@[j])@),
            Err(_) => false,
        },
{
    let ghost lv = text_views(lines@);
    let mut out: Vec<String> = Vec::new();
    let mut i: usize = 0;
    proof {
        assert(lv.subrange(0, 0).map_values(|l: Seq<char>| wrapped(budget, l)) =~= Seq::<
            Seq<Seq<char>>,
        >::empty());
        assert(text_views(out@) =~= rewrapped(budget, lv.subrange(0, 0)));
    }
    while i < lines.len()
        invariant
            i <= lines@.len(),
            lv == text_views(lines@),
            forall|j: int| 0 <= j < i ==> wrap_ok(budget, (#[trigger] lines@[j])@),
            text_views(out@) == rewrapped(budget, lv.subrange(0, i as int)),
        decreases lines@.len() - i,
    {
        let part = match wrap_line(lines[i].as_str(), budget) {
            Ok(p) => p,
            Err(e) => {
                return Err(e);
            },
        };
        let ghost before = text_views(out@);
        let mut k: usize = 0;
        proof {
            assert(before + text_views(part@).subrange(0, 0) =~= before);
        }
        while k < part.len()
            invariant
                k <= part@.len(),
                text_views(out@) == before + text_views(part@).subrange(0, k as int),
            decreases part@.len() - k,
        {
            let ghost mid = text_views(out@);
            out.push(part[k].clone());
            proof {
                assert(text_views(out@) =~= mid.push(part@[k as int]@));
                assert(before + text_views(part@).subrange(0, k as int + 1) =~= mid.push(
                    part@[k as int]@,
                ));
            }
            k += 1;
        }
        proof {
            let pre = lv.subrange(0, i as int);
            let f = |l: Seq<char>| wrapped(budget, l);
            assert(lv.subrange(0, i as int + 1).map_values(f) =~= pre.map_values(f).push(
                wrapped(budget, lv[i as int]),
            ));
            pre.map_values(f).lemma_flatten_push(wrapped(budget, lv[i as int]));
            assert(text_views(part@).subrange(0, part@.len() as int) =~= text_views(part@));
            assert(lv[i as int] == lines@[i as int]@);
        }
        i += 1;
    }
    proof {
        assert(lv.subrange(0, lines@.len() as int) =~= lv);
    }
    Ok(out)
}

proof fn lemma_text_width_nonneg(b: LineBudget, s: Seq<char>)
    ensures
        text_width(b, s) >= 0,
    decreases s.len(),
{
    if s.len() > 0 {
        lemma_text_width_nonneg(b, s.drop_last());
    }
}

/// A word as `words` gives it: not empty, and without whitespace.
pub open spec fn word_shaped(w: Seq<char>) -> bool {
    w.len() > 0 && forall|i: int| 0 <= i < w.len() ==> !is_space_char(#[trigger] w[i])
}

pub open spec fn all_words_ok(b: LineBudget, g: Seq<Seq<char>>) -> bool {
    forall|k: int| 0 <= k < g.len() ==> word_shaped(#[trigger] g[k]) && measurable(b, g[k])
}

/// The words of `g` on one line, one space between two.
pub open spec fn join(g: Seq<Seq<char>>) -> Seq<char>
    decreases g.len(),
{
    if g.len() == 0 {
        Seq::empty()
    } else if g.len() == 1 {
        g[0]
    } else {
        join(g.drop_last()) + seq![' '] + g.last()
    }
}

/// The width of the words of `g` on one line, as the wrapper counts it.
pub open spec fn group_width(b: LineBudget, g: Seq<Seq<char>>) -> int
    decreases g.len(),
{
    if g.len() == 0 {
        0
    } else if g.len() == 1 {
        text_width(b, g[0])
    } else {
        group_width(b, g.drop_last()) + char_width(b, ' ') + text_width(b, g.last())
    }
}

/// The wrapper puts the words of `g` on one line: no word after the first finds the
/// line at its limit.
pub open spec fn fits(b: LineBudget, g: Seq<Seq<char>>) -> bool
    decreases g.len(),
{
    g.len() <= 1 || (fits(b, g.drop_last()) && group_width(b, g.drop_last()) + char_width(b, ' ')
        + text_width(b, g.last()) < limit(b))
}

/// What holds of each line that wrapping gives.
pub open spec fn line_ok(b: LineBudget, l: Seq<char>) -> bool {
    &&& wrap_ok(b, l)
    &&& wrapped(b, l) == seq![l]
    &&& words(l).len() >= 2 ==> text_width(b, l) < limit(b)
}

proof fn lemma_words_in_word(w: Seq<char>, t: Seq<char>, cur: Seq<char>)
    requires
        forall|i: int| 0 <= i < w.len() ==> !is_space_char(#[trigger] w[i]),
    ensures
        words_from(w + t, cur) == words_from(t, cur + w),
    decreases w.len(),
{
    if w.len() == 0 {
        assert(w + t =~= t);
        assert(cur + w =~= cur);
    } else {
        let wt = w + t;
        assert(wt[0] == w[0]);
        assert(wt.skip(1) =~= w.skip(1) + t);
        lemma_words_in_word(w.skip(1), t, cur.push(w[0]));
        assert(cur.push(w[0]) + w.skip(1) =~= cur + w);
    }
}

proof fn lemma_words_at_space(t: Seq<char>, cur: Seq<char>)
    ensures
        words_from(seq![' '] + t, cur) == (if cur.len() > 0 {
            seq![cur]
        } else {
            Seq::<Seq<char>>::empty()
        }) + words_from(t, Seq::empty()),
{
    let st = seq![' '] + t;
    assert(st[0] == ' ');
    assert(st.skip(1) =~= t);
}

/// The words of a joined line are the words it was joined from.
proof fn lemma_words_join(g: Seq<Seq<char>>, t: Seq<char>)
    requires
        g.len() >= 1,
        forall|k: int| 0 <= k < g.len() ==> word_shaped(#[trigger] g[k]),
    ensures
        words_from(join(g) + seq![' '] + t, Seq::empty()) == g + words_from(t, Seq::empty()),
        words(join(g)) == g,
    decreases g.len(),
{
    let e = Seq::<char>::empty();
    let w = g.last();
    assert(word_shaped(g[g.len() - 1]));
    assert(e + w =~= w);
    if g.len() == 1 {
        assert(join(g) == w);
        assert(join(g) + seq![' '] + t =~= w + (seq![' '] + t));
        lemma_words_in_word(w, seq![' '] + t, e);
        lemma_words_at_space(t, w);
        assert(g =~= seq![w]);
        assert(join(g) =~= w + e);
        lemma_words_in_word(w, e, e);
        assert(words_from(e, w) =~= seq![w]);
    } else {
        let g1 = g.drop_last();
        assert forall|k: int| 0 <= k < g1.len() implies word_shaped(#[trigger] g1[k]) by {
            assert(g1[k] == g[k]);
        }
        lemma_words_join(g1, w + seq![' '] + t);
        assert(join(g) + seq![' '] + t =~= join(g1) + seq![' '] + (w + seq![' '] + t));
        assert(w + seq![' '] + t =~= w + (seq![' '] + t));
        lemma_words_in_word(w, seq![' '] + t, e);
        lemma_words_at_space(t, w);
        assert(g1 + (seq![w] + words_from(t, e)) =~= g + words_from(t, e));
        lemma_words_join(g1, w);
        assert(join(g) =~= join(g1) + seq![' '] + w);
        lemma_words_in_word(w, e, e);
        assert(w + e =~= w);
        assert(words_from(e, w) =~= seq![w]);
        assert(g1 + seq![w] =~= g);
    }
}

proof fn lemma_words_shaped(s: Seq<char>, cur: Seq<char>)
    requires
        forall|i: int| 0 <= i < cur.len() ==> !is_space_char(#[trigger] cur[i]),
    ensures
        forall|k: int|
            0 <= k < words_from(s, cur).len() ==> word_shaped(#[trigger] words_from(s, cur)[k]),
    decreases s.len(),
{
    let r = words_from(s, cur);
    let done = if cur.len() > 0 {
        seq![cur]
    } else {
        Seq::<Seq<char>>::empty()
    };
    if s.len() == 0 {
        assert(r == done);
        assert forall|k: int| 0 <= k < r.len() implies word_shaped(#[trigger] r[k]) by {
            assert(r[k] == cur);
        }
    } else {
        if is_space_char(s[0]) {
            lemma_words_shaped(s.skip(1), Seq::empty());
            let tail = words_from(s.skip(1), Seq::empty());
            assert(r == done + tail);
            assert forall|k: int| 0 <= k < r.len() implies word_shaped(#[trigger] r[k]) by {
                if k < done.len() {
                    assert(r[k] == cur);
                } else {
                    assert(r[k] == tail[k - done.len()]);
                }
            }
        } else {
            let c2 = cur.push(s[0]);
            assert forall|i: int| 0 <= i < c2.len() implies !is_space_char(#[trigger] c2[i]) by {
                if i < cur.len() {
                    assert(c2[i] == cur[i]);
                }
            }
            lemma_words_shaped(s.skip(1), c2);
            assert(r == words_from(s.skip(1), c2));
        }
    }
}

proof fn lemma_text_width_concat(b: LineBudget, x: Seq<char>, y: Seq<char>)
    ensures
        text_width(b, x + y) == text_width(b, x) + text_width(b, y),
    decreases y.len(),
{
    if y.len() == 0 {
        assert(x + y =~= x);
    } else {
        assert((x + y).drop_last() =~= x + y.drop_last());
        assert((x + y).last() == y.last());
        lemma_text_width_concat(b, x, y.drop_last());
    }
}

proof fn lemma_join_width(b: LineBudget, g: Seq<Seq<char>>)
    ensures
        text_width(b, join(g)) == group_width(b, g),
    decreases g.len(),
{
    if g.len() >= 2 {
        lemma_join_width(b, g.drop_last());
        lemma_text_width_concat(b, join(g.drop_last()) + seq![' '], g.last());
        lemma_text_width_concat(b, join(g.drop_last()), seq![' ']);
        assert(seq![' '].drop_last() =~= Seq::<char>::empty());
        assert(text_width(b, Seq::<char>::empty()) == 0);
        assert(text_width(b, seq![' ']) == char_width(b, ' '));
        assert(join(g) == join(g.drop_last()) + seq![' '] + g.last());
    }
}

proof fn lemma_join_nonempty(g: Seq<Seq<char>>)
    requires
        g.len() >= 1,
        word_shaped(g.last()),
    ensures
        join(g).len() > 0,
{
}

proof fn lemma_fits_prefix(b: LineBudget, g: Seq<Seq<char>>, m: int)
    requires
        fits(b, g),
        1 <= m <= g.len(),
    ensures
        fits(b, g.subrange(0, m)),
    decreases g.len(),
{
    if m == g.len() {
        assert(g.subrange(0, m) =~= g);
    } else {
        lemma_fits_prefix(b, g.drop_last(), m);
        assert(g.drop_last().subrange(0, m) =~= g.subrange(0, m));
    }
}

/// Words that fit on one line, with that line begun, all go on that line.
proof fn lemma_wrap_fitting(b: LineBudget, g0: Seq<Seq<char>>, ws: Seq<Seq<char>>)
    requires
        g0.len() >= 1,
        forall|k: int| 0 <= k < g0.len() ==> word_shaped(#[trigger] g0[k]),
        forall|k: int| 0 <= k < ws.len() ==> word_shaped(#[trigger] ws[k]),
        fits(b, g0 + ws),
    ensures
        wrap_from(b, ws, join(g0), group_width(b, g0)) == seq![join(g0 + ws)],
    decreases ws.len(),
{
    if ws.len() == 0 {
        assert(g0 + ws =~= g0);
    } else {
        let w = ws[0];
        let g1 = g0.push(w);
        assert(word_shaped(g0[g0.len() - 1]));
        lemma_join_nonempty(g0);
        lemma_fits_prefix(b, g0 + ws, g1.len() as int);
        assert((g0 + ws).subrange(0, g1.len() as int) =~= g1);
        assert(g1.drop_last() =~= g0);
        assert(g0 + ws =~= g1 + ws.skip(1));
        assert forall|k: int| 0 <= k < g1.len() implies word_shaped(#[trigger] g1[k]) by {
            if k < g0.len() {
                assert(g1[k] == g0[k]);
            }
        }
        assert forall|k: int| 0 <= k < ws.skip(1).len() implies word_shaped(
            #[trigger] ws.skip(1)[k],
        ) by {
            assert(ws.skip(1)[k] == ws[k + 1]);
        }
        lemma_wrap_fitting(b, g1, ws.skip(1));
    }
}

/// A line joined from words that fit on it wraps back to itself.
proof fn lemma_group_line(b: LineBudget, g: Seq<Seq<char>>)
    requires
        g.len() >= 1,
        all_words_ok(b, g),
        fits(b, g),
        measures(b, ' '),
    ensures
        line_ok(b, join(g)),
{
    let l = join(g);
    assert forall|k: int| 0 <= k < g.len() implies word_shaped(#[trigger] g[k]) by {}
    lemma_words_join(g, Seq::empty());
    let g0 = seq![g[0]];
    assert(g0 + g.skip(1) =~= g);
    assert(join(g0) == g[0]);
    assert forall|k: int| 0 <= k < g.skip(1).len() implies word_shaped(#[trigger] g.skip(1)[k]) by {
        assert(g.skip(1)[k] == g[k + 1]);
    }
    lemma_wrap_fitting(b, g0, g.skip(1));
    assert(wrapped(b, l) == wrap_from(b, g.skip(1), g[0], text_width(b, g[0])));
    lemma_join_width(b, g);
    if g.len() >= 2 {
        assert(fits(b, g.drop_last()));
    }
}

/// Every line that greedy wrapping gives, from a line joined from `g0` onwards, is
/// `line_ok`.
proof fn lemma_wrap_lines(
    b: LineBudget,
    ws: Seq<Seq<char>>,
    cur: Seq<char>,
    run: int,
    g0: Seq<Seq<char>>,
)
    requires
        measures(b, ' '),
        all_words_ok(b, ws),
        all_words_ok(b, g0),
        cur == join(g0),
        run == group_width(b, g0),
        fits(b, g0),
    ensures
        forall|j: int|
            0 <= j < wrap_from(b, ws, cur, run).len() ==> line_ok(
                b,
                #[trigger] wrap_from(b, ws, cur, run)[j],
            ),
    decreases ws.len(),
{
    let out = wrap_from(b, ws, cur, run);
    if g0.len() >= 1 {
        lemma_group_line(b, g0);
        assert(word_shaped(g0[g0.len() - 1]));
        lemma_join_nonempty(g0);
    } else {
        assert(cur =~= Seq::<char>::empty());
        assert(words(cur) =~= Seq::<Seq<char>>::empty());
        assert(wrapped(b, cur) == seq![cur]);
        assert(line_ok(b, cur));
    }
    if ws.len() > 0 {
        let w = ws[0];
        let ww = text_width(b, w);
        let rest = ws.skip(1);
        assert(word_shaped(ws[0]) && measurable(b, ws[0]));
        assert(all_words_ok(b, rest)) by {
            assert forall|k: int| 0 <= k < rest.len() implies word_shaped(#[trigger] rest[k])
                && measurable(b, rest[k]) by {
                assert(rest[k] == ws[k + 1]);
            }
        }
        let gw = seq![w];
        assert(all_words_ok(b, gw));
        assert(join(gw) == w);
        if cur.len() > 0 && run + char_width(b, ' ') + ww >= limit(b) {
            lemma_wrap_lines(b, rest, w, ww, gw);
            let tail = wrap_from(b, rest, w, ww);
            assert(out == seq![cur] + tail);
            assert forall|j: int| 0 <= j < out.len() implies line_ok(b, #[trigger] out[j]) by {
                if j > 0 {
                    assert(out[j] == tail[j - 1]);
                }
            }
        } else if cur.len() > 0 {
            let g1 = g0.push(w);
            assert(g0.len() >= 1);
            assert(g1.drop_last() =~= g0);
            assert(g1.last() == w);
            assert(join(g1) == cur + seq![' '] + w);
            assert(group_width(b, g1) == run + char_width(b, ' ') + ww);
            assert(fits(b, g1));
            assert(out == wrap_from(b, rest, cur + seq![' '] + w, run + char_width(b, ' ') + ww));
            assert(all_words_ok(b, g1)) by {
                assert forall|k: int| 0 <= k < g1.len() implies word_shaped(#[trigger] g1[k])
                    && measurable(b, g1[k]) by {
                    if k < g0.len() {
                        assert(g1[k] == g0[k]);
                    }
                }
            }
            lemma_wrap_lines(b, rest, cur + seq![' '] + w, run + char_width(b, ' ') + ww, g1);
        } else {
            lemma_wrap_lines(b, rest, w, ww, gw);
            assert(out == wrap_from(b, rest, w, ww));
        }
    }
}

/// Every line that wrapping gives is a line that wrapping leaves as it is.
proof fn lemma_wrapped_lines(b: LineBudget, s: Seq<char>)
    requires
        wrap_ok(b, s),
    ensures
        forall|j: int| 0 <= j < wrapped(b, s).len() ==> line_ok(b, #[trigger] wrapped(b, s)[j]),
{
    let ws = words(s);
    lemma_words_shaped(s, Seq::empty());
    assert(all_words_ok(b, ws));
    let e = Seq::<Seq<char>>::empty();
    assert(join(e) == Seq::<char>::empty());
    lemma_wrap_lines(b, ws, Seq::empty(), 0, e);
}

/// Wrapping is idempotent: each line that wrapping gives wraps to itself alone, so
/// wrapping the lines again, one by one, gives the same lines.
pub proof fn lemma_rewrap_idempotent(b: LineBudget, s: Seq<char>, j: int)
    requires
        wrap_ok(b, s),
        0 <= j < wrapped(b, s).len(),
    ensures
        wrap_ok(b, wrapped(b, s)[j]),
        wrapped(b, wrapped(b, s)[j]) == seq![wrapped(b, s)[j]],
{
    lemma_wrapped_lines(b, s);
    assert(line_ok(b, wrapped(b, s)[j]));
}

/// A line that wrapping gives with two words or more is narrower than the limit; only a
/// line of a single word may reach or pass it.
pub proof fn lemma_width_bound(b: LineBudget, s: Seq<char>, j: int)
    requires
        wrap_ok(b, s),
        0 <= j < wrapped(b, s).len(),
    ensures
        words(wrapped(b, s)[j]).len() >= 2 ==> text_width(b, wrapped(b, s)[j]) < limit(b),
{
    lemma_wrapped_lines(b, s);
    assert(line_ok(b, wrapped(b, s)[j]));
}

/// Wrapping each line of `ls` again, and putting the results one after the other.
pub open spec fn rewrapped(b: LineBudget, ls: Seq<Seq<char>>) -> Seq<Seq<char>> {
    ls.map_values(|l: Seq<char>| wrapped(b, l)).flatten()
}

proof fn lemma_rewrapped_fixed(b: LineBudget, ls: Seq<Seq<char>>)
    requires
        forall|j: int| 0 <= j < ls.len() ==> wrapped(b, #[trigger] ls[j]) == seq![ls[j]],
    ensures
        rewrapped(b, ls) == ls,
    decreases ls.len(),
{
    if ls.len() > 0 {
        let rest = ls.drop_first();
        let m = ls.map_values(|l: Seq<char>| wrapped(b, l));
        assert(m.drop_first() =~= rest.map_values(|l: Seq<char>| wrapped(b, l)));
        assert(m.first() == seq![ls[0]]);
        lemma_rewrapped_fixed(b, rest);
        assert(seq![ls[0]] + rest =~= ls);
    } else {
        assert(ls.map_values(|l: Seq<char>| wrapped(b, l)) =~= Seq::<Seq<Seq<char>>>::empty());
    }
}

/// Wrapping the lines that wrapping gave, each on its own, gives those lines again.
pub proof fn lemma_rewrap_all(b: LineBudget, s: Seq<char>)
    requires
        wrap_ok(b, s),
    ensures
        rewrapped(b, wrapped(b, s)) == wrapped(b, s),
{
    lemma_wrapped_lines(b, s);
    let ls = wrapped(b, s);
    assert forall|j: int| 0 <= j < ls.len() implies wrapped(b, #[trigger] ls[j]) == seq![ls[j]] by {
        assert(line_ok(b, ls[j]));
    }
    lemma_rewrapped_fixed(b, ls);
}

} // verus!
