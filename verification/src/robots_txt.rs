//! Reading the text of a `robots.txt` into its directives.
use crate::text::{can_cut, char_bytes, count_bytes, is_cut};
use vstd::prelude::*;

verus! {

/// A line of a `robots.txt` that says something.
#[derive(Debug)]
pub enum Directive {
    /// The rules that follow are for this user agent.
    UserAgent(u32, String),
    /// A pattern that may be accessed.
    Allow(u32, String),
    /// A pattern that may not be accessed.
    Disallow(u32, String),
    /// The address of a sitemap.
    Sitemap(u32, String),
    /// A line with any other key: the key and its value.
    Unknown(u32, String, String),
}

/// What a [Directive] says, with the number of its line.
pub enum DirectiveView {
    /// The rules that follow are for this user agent.
    UserAgent(u32, Seq<char>),
    /// A pattern that may be accessed.
    Allow(u32, Seq<char>),
    /// A pattern that may not be accessed.
    Disallow(u32, Seq<char>),
    /// The address of a sitemap.
    Sitemap(u32, Seq<char>),
    /// A line with any other key: the key and its value.
    Unknown(u32, Seq<char>, Seq<char>),
}

impl View for Directive {
    type V = DirectiveView;

    open spec fn view(&self) -> DirectiveView {
        match *self {
            Directive::UserAgent(line, value) => DirectiveView::UserAgent(line, value@),
            Directive::Allow(line, value) => DirectiveView::Allow(line, value@),
            Directive::Disallow(line, value) => DirectiveView::Disallow(line, value@),
            Directive::Sitemap(line, value) => DirectiveView::Sitemap(line, value@),
            Directive::Unknown(line, key, value) => DirectiveView::Unknown(line, key@, value@),
        }
    }
}

/// What some directives say.
pub open spec fn directive_views(directives: Seq<Directive>) -> Seq<DirectiveView> {
    directives.map_values(|directive: Directive| directive@)
}

/// Notes down each directive as the parser comes across it.
pub struct Recorder {
    /// The directives so far.
    pub directives: Vec<Directive>,
}

impl robotstxt::RobotsParseHandler for Recorder {
    fn handle_robots_start(&mut self)
        ensures
            final(self).directives@ == old(self).directives@,
    {
    }

    fn handle_robots_end(&mut self)
        ensures
            final(self).directives@ == old(self).directives@,
    {
    }

    fn handle_user_agent(&mut self, line_num: u32, user_agent: &str)
        ensures
            directive_views(final(self).directives@) == directive_views(
                old(self).directives@,
            ).push(DirectiveView::UserAgent(line_num, user_agent@)),
    {
        self.directives.push(Directive::UserAgent(line_num, user_agent.to_owned()));
        assert(directive_views(self.directives@) =~= directive_views(old(self).directives@).push(
            DirectiveView::UserAgent(line_num, user_agent@),
        ));
    }

    fn handle_allow(&mut self, line_num: u32, value: &str)
        ensures
            directive_views(final(self).directives@) == directive_views(
                old(self).directives@,
            ).push(DirectiveView::Allow(line_num, value@)),
    {
        self.directives.push(Directive::Allow(line_num, value.to_owned()));
        assert(directive_views(self.directives@) =~= directive_views(old(self).directives@).push(
            DirectiveView::Allow(line_num, value@),
        ));
    }

    fn handle_disallow(&mut self, line_num: u32, value: &str)
        ensures
            directive_views(final(self).directives@) == directive_views(
                old(self).directives@,
            ).push(DirectiveView::Disallow(line_num, value@)),
    {
        self.directives.push(Directive::Disallow(line_num, value.to_owned()));
        assert(directive_views(self.directives@) =~= directive_views(old(self).directives@).push(
            DirectiveView::Disallow(line_num, value@),
        ));
    }

    fn handle_sitemap(&mut self, line_num: u32, value: &str)
        ensures
            directive_views(final(self).directives@) == directive_views(
                old(self).directives@,
            ).push(DirectiveView::Sitemap(line_num, value@)),
    {
        self.directives.push(Directive::Sitemap(line_num, value.to_owned()));
        assert(directive_views(self.directives@) =~= directive_views(old(self).directives@).push(
            DirectiveView::Sitemap(line_num, value@),
        ));
    }

    fn handle_unknown_action(&mut self, line_num: u32, action: &str, value: &str)
        ensures
            directive_views(final(self).directives@) == directive_views(
                old(self).directives@,
            ).push(DirectiveView::Unknown(line_num, action@, value@)),
    {
        self.directives.push(Directive::Unknown(line_num, action.to_owned(), value.to_owned()));
        assert(directive_views(self.directives@) =~= directive_views(old(self).directives@).push(
            DirectiveView::Unknown(line_num, action@, value@),
        ));
    }
}

/// The directives that `robotstxt::parse_robotstxt` finds in a text, in their order.
pub uninterp spec fn robots_directives(text: Seq<char>) -> Seq<DirectiveView>;

/// The number of bytes of a line that `robotstxt::parse_robotstxt` looks at.
pub const MAX_LINE_BYTES: usize = 16_663;

/// Whether a character ends a line.
pub open spec fn ends_line(c: char) -> bool {
    c as u32 == 0x0A || c as u32 == 0x0D
}

/// Whether `text` starts with some of the characters `EF`, `BB`, `BF`, and with how many: they are
/// what a byte order mark looks like that was read byte by byte.
pub open spec fn mark_len(text: Seq<char>) -> int {
    if text.len() == 0 || text[0] as u32 != 0xEF {
        0
    } else if text.len() == 1 || text[1] as u32 != 0xBB {
        1
    } else if text.len() == 2 || text[2] as u32 != 0xBF {
        2
    } else {
        3
    }
}

/// How far `robotstxt::parse_robotstxt` has come in a text. It goes through the characters and
/// counts bytes; of a long line it leaves out the end, of which it counts the characters only.
#[verifier::ext_equal]
pub struct Reading {
    /// The byte at which the line starts.
    pub start: int,
    /// The byte at which what is read of the line ends.
    pub end: int,
    /// The number of characters of the line that were left out.
    pub skipped: int,
    /// Whether the line before ended with a carriage return.
    pub returned: bool,
    /// The number of lines that were taken.
    pub lines: int,
    /// Whether all of them started and ended between two characters.
    pub whole: bool,
}

impl Reading {
    /// Whether what is read of the line starts and ends between two characters.
    pub open spec fn is_whole_line(self, text: Seq<char>) -> bool {
        is_cut(text, self.start) && is_cut(text, self.end)
    }

    /// The reading one character further. A line feed right behind a carriage return makes no line.
    pub open spec fn after(self, text: Seq<char>, c: char) -> Reading {
        if !ends_line(c) {
            if self.end - self.start < MAX_LINE_BYTES {
                Reading { end: self.end + char_bytes(c), ..self }
            } else {
                Reading { skipped: self.skipped + 1, ..self }
            }
        } else {
            let next = self.end + self.skipped + 1;
            let continued = self.end == self.start && self.returned && c as u32 == 0x0A;
            Reading {
                start: next,
                end: next,
                skipped: 0,
                returned: c as u32 == 0x0D,
                lines: if continued {
                    self.lines
                } else {
                    self.lines + 1
                },
                whole: self.whole && (continued || self.is_whole_line(text)),
            }
        }
    }
}

/// How far `robotstxt::parse_robotstxt` has come after `i` characters: what looks like a byte order
/// mark is passed over.
pub open spec fn reading(text: Seq<char>, i: int) -> Reading
    decreases i,
{
    if i <= mark_len(text) || i <= 0 {
        Reading {
            start: 2 * i,
            end: 2 * i,
            skipped: 0,
            returned: false,
            lines: 0,
            whole: true,
        }
    } else {
        reading(text, i - 1).after(text, text[i - 1])
    }
}

/// Whether `robotstxt::parse_robotstxt` can read the text: it counts lines in a `u32`, and panics
/// where a line that it takes starts or ends within a character. That comes about where characters
/// of several bytes are left out, as it counts each of them as one byte.
pub open spec fn is_readable(text: Seq<char>) -> bool {
    let last = reading(text, text.len() as int);
    &&& last.whole
    &&& last.is_whole_line(text)
    &&& last.lines < u32::MAX
}

/// `robotstxt::parse_robotstxt`: the directives, in the order in which the parser hands them out.
#[verifier::external_body]
fn record_directives(text: &str) -> (directives: Vec<Directive>)
    requires
        is_readable(text@),
    ensures
        directive_views(directives@) == robots_directives(text@),
{
    let mut recorder = Recorder { directives: Vec::new() };
    robotstxt::parse_robotstxt(text, &mut recorder);
    recorder.directives
}

/// The directives of a `robots.txt`, in their order.
pub fn parse_robotstxt(text: &str) -> (directives: Vec<Directive>)
    requires
        is_readable(text@),
    ensures
        directive_views(directives@) == robots_directives(text@),
{
    record_directives(text)
}

/// The number of characters that look like a byte order mark at the start of a text.
fn count_mark(text: &str) -> (mark: usize)
    ensures
        mark == mark_len(text@),
{
    let len: usize = text.unicode_len();
    if len == 0 || text.get_char(0) as u32 != 0xEF {
        0
    } else if len == 1 || text.get_char(1) as u32 != 0xBB {
        1
    } else if len == 2 || text.get_char(2) as u32 != 0xBF {
        2
    } else {
        3
    }
}

/// Whether [parse_robotstxt] can read the text.
pub fn can_read(text: &str) -> (readable: bool)
    ensures
        readable == is_readable(text@),
{
    let len: usize = text.unicode_len();
    let mark: usize = count_mark(text);
    let line_bytes: u128 = MAX_LINE_BYTES as u128;
    let mut place: usize = 0;
    let mut start: u128 = 0;
    let mut end: u128 = 0;
    let mut skipped: u128 = 0;
    let mut returned: bool = false;
    let mut lines: u128 = 0;
    let mut whole: bool = true;
    for c in it: text.chars()
        invariant
            it.seq() == text@,
            place == it.index(),
            len == text@.len(),
            mark == mark_len(text@),
            line_bytes == MAX_LINE_BYTES,
            reading(text@, place as int) == (Reading {
                start: start as int,
                end: end as int,
                skipped: skipped as int,
                returned,
                lines: lines as int,
                whole,
            }),
            start <= end,
            end + skipped <= 4 * place,
            lines <= place,
    {
        if place < mark {
            start = start + 2;
            end = end + 2;
        } else if c as u32 != 0x0A && c as u32 != 0x0D {
            if end - start < line_bytes {
                end = end + count_bytes(c);
            } else {
                skipped = skipped + 1;
            }
        } else {
            if !(end == start && returned && c as u32 == 0x0A) {
                whole = whole && can_cut(text, start) && can_cut(text, end);
                lines = lines + 1;
            }
            end = end + skipped + 1;
            start = end;
            skipped = 0;
            returned = c as u32 == 0x0D;
        }
        place = place + 1;
    }
    whole && can_cut(text, start) && can_cut(text, end) && lines < u32::MAX as u128
}

} // verus!
