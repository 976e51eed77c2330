//! Rendering files of a project as sections of one Markdown document.
use vstd::prelude::*;

use vstd::utf8::{decode_utf8, valid_utf8};

use crate::util::path_display::{display_path, display_text};
use crate::util::text::{lemma_decode_len, lemma_str_chars, push_char, str_from_utf8};

verus! {

/// The number of backticks that end the text.
pub open spec fn trailing_backticks(s: Seq<char>) -> nat
    decreases s.len(),
{
    if s.len() == 0 || s.last() != '`' {
        0
    } else {
        1 + trailing_backticks(s.drop_last())
    }
}

/// The length of the longest run of backticks in the text.
pub open spec fn longest_backtick_run(s: Seq<char>) -> nat
    decreases s.len(),
{
    if s.len() == 0 {
        0
    } else {
        let before = longest_backtick_run(s.drop_last());
        let here = trailing_backticks(s);
        if here > before {
            here
        } else {
            before
        }
    }
}

/// Whether the text holds `n` backticks in a row from index `a` on.
pub open spec fn backtick_run_at(s: Seq<char>, a: int, n: nat) -> bool {
    0 <= a && a + n <= s.len() && forall|j: int| a <= j < a + n ==> s[j] == '`'
}

/// Whether the text holds `n` backticks in a row.
pub open spec fn has_backtick_run(s: Seq<char>, n: nat) -> bool {
    exists|a: int| backtick_run_at(s, a, n)
}

/// The length of the fence around a text: one more than its longest run of
/// backticks, and at least three.
pub open spec fn fence_len(s: Seq<char>) -> nat {
    if longest_backtick_run(s) >= 3 {
        longest_backtick_run(s) + 1
    } else {
        3
    }
}

/// `n` backticks.
pub open spec fn backticks(n: nat) -> Seq<char> {
    Seq::new(n, |i: int| '`')
}

/// A text ending in `n` backticks has at least `n` trailing backticks.
proof fn lemma_trailing_at_least(s: Seq<char>, n: nat)
    requires
        n <= s.len(),
        forall|j: int| s.len() - n <= j < s.len() ==> s[j] == '`',
    ensures
        trailing_backticks(s) >= n,
    decreases n,
{
    if n > 0 {
        let d = s.drop_last();
        assert forall|j: int| d.len() - (n - 1) <= j < d.len() implies d[j] == '`' by {
            assert(d[j] == s[j]);
        }
        lemma_trailing_at_least(d, (n - 1) as nat);
    }
}

/// A run of backticks is never longer than the longest one.
proof fn lemma_run_bounded(s: Seq<char>, n: nat)
    requires
        has_backtick_run(s, n),
    ensures
        n <= longest_backtick_run(s),
    decreases s.len(),
{
    let a = choose|a: int| backtick_run_at(s, a, n);
    if n > 0 {
        if a + n == s.len() {
            lemma_trailing_at_least(s, n);
        } else {
            let d = s.drop_last();
            assert forall|j: int| a <= j < a + n implies d[j] == '`' by {
                assert(d[j] == s[j]);
            }
            assert(backtick_run_at(d, a, n));
            lemma_run_bounded(d, n);
        }
    }
}

/// Runs of backticks are no longer than the text.
/// The trailing backticks form a run at the end of the text.
proof fn lemma_trailing_run(s: Seq<char>)
    ensures
        trailing_backticks(s) <= s.len(),
        backtick_run_at(s, s.len() - trailing_backticks(s), trailing_backticks(s)),
    decreases s.len(),
{
    if s.len() > 0 && s.last() == '`' {
        let d = s.drop_last();
        lemma_trailing_run(d);
        let t = trailing_backticks(s);
        assert forall|j: int| s.len() - t <= j < s.len() implies s[j] == '`' by {
            if j < s.len() - 1 {
                assert(s[j] == d[j]);
            }
        }
    }
}

/// The longest run of backticks occurs in the text.
proof fn lemma_longest_run_occurs(s: Seq<char>)
    ensures
        has_backtick_run(s, longest_backtick_run(s)),
    decreases s.len(),
{
    if s.len() == 0 {
        assert(backtick_run_at(s, 0, 0));
    } else {
        let d = s.drop_last();
        lemma_longest_run_occurs(d);
        lemma_trailing_run(s);
        if trailing_backticks(s) > longest_backtick_run(d) {
            assert(backtick_run_at(s, s.len() - trailing_backticks(s), trailing_backticks(s)));
        } else {
            let n = longest_backtick_run(d);
            let a = choose|a: int| backtick_run_at(d, a, n);
            assert forall|j: int| a <= j < a + n implies s[j] == '`' by {
                assert(s[j] == d[j]);
            }
            assert(backtick_run_at(s, a, n));
        }
    }
}

proof fn lemma_trailing_le_len(s: Seq<char>)
    ensures
        trailing_backticks(s) <= s.len(),
        longest_backtick_run(s) <= s.len(),
    decreases s.len(),
{
    if s.len() > 0 {
        lemma_trailing_le_len(s.drop_last());
    }
}

/// The fence for a code block around `contents`: enough backticks that no
/// run of backticks inside the contents can close it, and at least three.
pub fn outer_backticks(contents: &str) -> (fence: String)
    ensures
        fence@ == backticks(fence_len(contents@)),
        fence@.len() >= 3,
        !has_backtick_run(contents@, fence@.len()),
        fence@.len() == 3 || has_backtick_run(contents@, (fence@.len() - 1) as nat),
        forall|i: int| 0 <= i < fence@.len() ==> #[trigger] fence@[i] == '`',
{
    let bytes = contents.as_bytes();
    let _byte_len: usize = bytes.len();
    proof {
        lemma_str_chars(contents, bytes@);
        lemma_decode_len(bytes@);
    }
    let mut max_ticks: usize = 0;
    let mut current_count: usize = 0;
    for ch in it: contents.chars()
        invariant
            it.seq() == contents@,
            contents@.len() <= usize::MAX,
            0 <= it.index() <= contents@.len(),
            max_ticks == longest_backtick_run(contents@.subrange(0, it.index())),
            current_count == trailing_backticks(contents@.subrange(0, it.index())),
    {
        let ghost idx = it.index();
        let ghost prev = contents@.subrange(0, idx);
        let ghost next = contents@.subrange(0, idx + 1);
        assert(next.drop_last() =~= prev);
        assert(next.last() == ch);
        proof {
            lemma_trailing_le_len(prev);
        }
        if ch == '`' {
            current_count += 1;
            if current_count > max_ticks {
                max_ticks = current_count;
            }
        } else {
            current_count = 0;
        }
    }
    let ghost all = contents@;
    assert(contents@.subrange(0, contents@.len() as int) =~= all);
    let mut fence = String::new();
    if max_ticks < 3 {
        push_char(&mut fence, '`');
        push_char(&mut fence, '`');
        push_char(&mut fence, '`');
    } else {
        let mut n: usize = 0;
        while n < max_ticks
            invariant
                n <= max_ticks,
                fence@ == backticks(n as nat),
            decreases max_ticks - n,
        {
            push_char(&mut fence, '`');
            n += 1;
            assert(fence@ =~= backticks(n as nat));
        }
        push_char(&mut fence, '`');
    }
    assert(fence@ =~= backticks(fence_len(all)));
    proof {
        if has_backtick_run(all, fence@.len()) {
            lemma_run_bounded(all, fence@.len());
        }
        lemma_longest_run_occurs(all);
    }
    fence
}

/// The title holds the whole name: `#`, a space, every character of the
/// name in order, then a line break.
pub proof fn law_header_holds_whole_name(name: Seq<char>)
    ensures
        header_text(name).len() == name.len() + 3,
        header_text(name)[0] == '#',
        header_text(name)[1] == ' ',
        header_text(name).subrange(2, name.len() as int + 2) == name,
        header_text(name).last() == '\n',
{
    assert(header_text(name).subrange(2, name.len() as int + 2) =~= name);
}

/// A heading holds the whole name: `\n## File: `, every character of the
/// name in order, then a line break.
pub proof fn law_heading_holds_whole_name(name: Seq<char>)
    ensures
        file_heading(name).len() == name.len() + 11,
        file_heading(name).subrange(0, 10) == seq!['\n', '#', '#', ' ', 'F', 'i', 'l', 'e', ':', ' '],
        file_heading(name).subrange(10, name.len() as int + 10) == name,
        file_heading(name).last() == '\n',
{
    assert(file_heading(name).subrange(0, 10) =~= seq!['\n', '#', '#', ' ', 'F', 'i', 'l', 'e', ':', ' ']);
    assert(file_heading(name).subrange(10, name.len() as int + 10) =~= name);
}

/// A text section holds the whole contents between the two fences: the
/// heading, the fence and a line break, every character of the contents in
/// order, then a line break, the fence and a line break; its length grows
/// with the contents.
pub proof fn law_text_section_holds_whole_contents(
    name: Seq<char>,
    fence: Seq<char>,
    contents: Seq<char>,
)
    ensures
        ({
            let t = text_section(name, fence, contents);
            let h = file_heading(name).len() as int;
            let start = h + fence.len() + 1;
            &&& t.len() == h + 2 * fence.len() + contents.len() + 3
            &&& t.subrange(0, h) == file_heading(name)
            &&& t.subrange(h, h + fence.len()) == fence
            &&& t[h + fence.len()] == '\n'
            &&& t.subrange(start, start + contents.len()) == contents
            &&& t[start + contents.len()] == '\n'
            &&& t.subrange(start + contents.len() + 1, start + contents.len() + 1 + fence.len())
                == fence
            &&& t.last() == '\n'
        }),
{
    let t = text_section(name, fence, contents);
    let h = file_heading(name).len() as int;
    let start = h + fence.len() + 1;
    assert(t.subrange(0, h) =~= file_heading(name));
    assert(t.subrange(h, h + fence.len()) =~= fence);
    assert(t.subrange(start, start + contents.len()) =~= contents);
    assert(t.subrange(start + contents.len() + 1, start + contents.len() + 1 + fence.len())
        =~= fence);
}

/// The file size above which a file is not rendered.
pub const DEFAULT_MAX_FILE_SIZE: u64 = 1_000_000;

/// The document title: `# name`.
pub open spec fn header_text(name: Seq<char>) -> Seq<char> {
    seq!['#', ' '] + name + seq!['\n']
}

/// The heading of a file section: an empty line, then `## File: name`.
pub open spec fn file_heading(name: Seq<char>) -> Seq<char> {
    seq!['\n', '#', '#', ' ', 'F', 'i', 'l', 'e', ':', ' '] + name + seq!['\n']
}

/// The section for a text file: its heading, then its contents in a code
/// block between two fences.
pub open spec fn text_section(name: Seq<char>, fence: Seq<char>, contents: Seq<char>) -> Seq<
    char,
> {
    file_heading(name) + fence + seq!['\n'] + contents + seq!['\n'] + fence + seq!['\n']
}

/// The label put in place of a file that is too large.
pub open spec fn too_large_label() -> Seq<char> {
    seq!['[', 'F', 'I', 'L', 'E', ' ', 'T', 'O', 'O', ' ', 'L', 'A', 'R', 'G', 'E', ']']
}

/// The label put in place of a file that is not UTF-8 text.
pub open spec fn binary_label() -> Seq<char> {
    seq!['[', 'B', 'I', 'N', 'A', 'R', 'Y', ' ', 'F', 'I', 'L', 'E', ']']
}

/// The section for a file whose contents are left out: its heading, then a label.
pub open spec fn placeholder_section(name: Seq<char>, label: Seq<char>) -> Seq<char> {
    file_heading(name) + label + seq!['\n']
}

/// How a file's contents were rendered.
#[derive(PartialEq, Eq, Structural, Clone, Copy, Debug)]
pub enum FileKind {
    /// As text in a code block.
    Text,
    /// As the binary-file placeholder, because they are not UTF-8.
    Binary,
}

/// The outcome of looking at a file's size.
#[derive(PartialEq, Eq, Structural, Clone, Copy, Debug)]
pub enum SizeCheck {
    /// The file is larger than the limit; its placeholder was rendered.
    TooLarge,
    /// The file is within the limit; its contents are to be rendered next.
    WithinLimit,
}

/// The name of a file as it appears in a heading.
fn render_filename(path: &[u8]) -> (s: String)
    ensures
        s@ == display_text(path@),
{
    display_path(path)
}

/// Writes a project's files into one Markdown document.
pub struct Renderer {
    output: String,
    max_file_size: u64,
}

impl Renderer {
    /// The document written so far.
    pub closed spec fn output_text(&self) -> Seq<char> {
        self.output@
    }

    /// The size above which files are left out.
    pub closed spec fn max_size(&self) -> u64 {
        self.max_file_size
    }

    /// A renderer that writes after `output`, with the default size limit.
    pub fn new(output: String) -> (r: Self)
        ensures
            r.output_text() == output@,
            r.max_size() == DEFAULT_MAX_FILE_SIZE,
    {
        Self { output, max_file_size: DEFAULT_MAX_FILE_SIZE }
    }

    /// The same renderer with another size limit.
    pub fn with_max_file_size(self, max_file_size: u64) -> (r: Self)
        ensures
            r.output_text() == self.output_text(),
            r.max_size() == max_file_size,
    {
        Self { output: self.output, max_file_size }
    }

    /// The document written so far.
    pub fn into_output(self) -> (s: String)
        ensures
            s@ == self.output_text(),
    {
        self.output
    }

    /// Writes the document title.
    pub fn render_header(&mut self, project_name: &str)
        ensures
            final(self).output_text() == old(self).output_text() + header_text(project_name@),
            final(self).max_size() == old(self).max_size(),
    {
        let ghost before = self.output@;
        self.output.append("# ");
        self.output.append(project_name);
        self.output.append("\n");
        proof {
            reveal_strlit("# ");
            reveal_strlit("\n");
        }
        assert(self.output@ =~= before + header_text(project_name@));
    }

    /// Writes the heading of a file section.
    fn render_heading(&mut self, filename: &[u8])
        ensures
            final(self).output_text() == old(self).output_text() + file_heading(display_text(filename@)),
            final(self).max_size() == old(self).max_size(),
    {
        let ghost before = self.output@;
        let name = render_filename(filename);
        self.output.append("\n## File: ");
        self.output.append(name.as_str());
        self.output.append("\n");
        proof {
            reveal_strlit("\n## File: ");
            reveal_strlit("\n");
        }
        assert(self.output@ =~= before + file_heading(display_text(filename@)));
    }

    /// Writes the section for a file of the given size: the too-large
    /// placeholder when the size is above the limit, nothing otherwise (the
    /// contents are then rendered by `render_file`).
    pub fn render_path(&mut self, relative: &[u8], file_len: u64) -> (r: SizeCheck)
        ensures
            r == SizeCheck::TooLarge <==> file_len > old(self).max_size(),
            r == SizeCheck::TooLarge ==> final(self).output_text() == old(self).output_text()
                + placeholder_section(display_text(relative@), too_large_label()),
            r == SizeCheck::WithinLimit ==> final(self).output_text() == old(self).output_text(),
            final(self).max_size() == old(self).max_size(),
    {
        if file_len > self.max_file_size {
            self.render_large_file(relative);
            SizeCheck::TooLarge
        } else {
            SizeCheck::WithinLimit
        }
    }

    /// Writes the section for a file: its contents in a code block when they
    /// are UTF-8 text, the binary-file placeholder otherwise.
    pub fn render_file(&mut self, filename: &[u8], contents: &[u8]) -> (r: FileKind)
        ensures
            r == FileKind::Text <==> valid_utf8(contents@),
            r == FileKind::Text ==> final(self).output_text() == old(self).output_text()
                + text_section(
                display_text(filename@),
                backticks(fence_len(decode_utf8(contents@))),
                decode_utf8(contents@),
            ),
            r == FileKind::Binary ==> final(self).output_text() == old(self).output_text()
                + placeholder_section(display_text(filename@), binary_label()),
            final(self).max_size() == old(self).max_size(),
    {
        match str_from_utf8(contents) {
            Some(text) => {
                proof {
                    lemma_str_chars(text, contents@);
                    lemma_decode_len(contents@);
                }
                let ghost before = self.output@;
                let fence = outer_backticks(text);
                self.render_heading(filename);
                self.output.append(fence.as_str());
                self.output.append("\n");
                self.output.append(text);
                self.output.append("\n");
                self.output.append(fence.as_str());
                self.output.append("\n");
                proof {
                    reveal_strlit("\n");
                }
                assert(self.output@ =~= before + text_section(
                    display_text(filename@),
                    backticks(fence_len(decode_utf8(contents@))),
                    decode_utf8(contents@),
                ));
                FileKind::Text
            },
            None => {
                self.render_binary_file(filename);
                FileKind::Binary
            },
        }
    }

    /// Writes the placeholder section for a file that is too large.
    pub fn render_large_file(&mut self, filename: &[u8])
        ensures
            final(self).output_text() == old(self).output_text() + placeholder_section(
                display_text(filename@),
                too_large_label(),
            ),
            final(self).max_size() == old(self).max_size(),
    {
        let ghost before = self.output@;
        self.render_heading(filename);
        self.output.append("[FILE TOO LARGE]\n");
        proof {
            reveal_strlit("[FILE TOO LARGE]\n");
        }
        assert(self.output@ =~= before + placeholder_section(
            display_text(filename@),
            too_large_label(),
        ));
    }

    /// The warning about a file left out for its size:
    /// `Warning: skipping large file: name (size > limit limit)`.
    pub fn warn_about_filesize(&self, filename: &[u8], filesize: u64) -> (s: String)
        ensures
            s@ == "Warning: skipping large file: "@ + display_text(filename@) + " ("@
                + readable_size(filesize as nat) + " > limit "@ + readable_size(
                self.max_size() as nat,
            ) + ")"@,
    {
        let mut s = String::new();
        s.append("Warning: skipping large file: ");
        s.append(render_filename(filename).as_str());
        s.append(" (");
        s.append(human_readable_size(filesize).as_str());
        s.append(" > limit ");
        s.append(human_readable_size(self.max_file_size).as_str());
        s.append(")");
        assert(s@ =~= "Warning: skipping large file: "@ + display_text(filename@) + " ("@
            + readable_size(filesize as nat) + " > limit "@ + readable_size(
            self.max_size() as nat,
        ) + ")"@);
        s
    }

    /// The warning about a file left out because it is not UTF-8 text:
    /// `Warning: skipping binary file: name`.
    pub fn warn_about_binary_file(&self, filename: &[u8]) -> (s: String)
        ensures
            s@ == "Warning: skipping binary file: "@ + display_text(filename@),
    {
        let mut s = String::new();
        s.append("Warning: skipping binary file: ");
        s.append(render_filename(filename).as_str());
        assert(s@ =~= "Warning: skipping binary file: "@ + display_text(filename@));
        s
    }

    /// Writes the placeholder section for a file that is not UTF-8 text.
    pub fn render_binary_file(&mut self, filename: &[u8])
        ensures
            final(self).output_text() == old(self).output_text() + placeholder_section(
                display_text(filename@),
                binary_label(),
            ),
            final(self).max_size() == old(self).max_size(),
    {
        let ghost before = self.output@;
        self.render_heading(filename);
        self.output.append("[BINARY FILE]\n");
        proof {
            reveal_strlit("[BINARY FILE]\n");
        }
        assert(self.output@ =~= before + placeholder_section(
            display_text(filename@),
            binary_label(),
        ));
    }
}

/// The distance between neighbouring `f64` values near `b`: 1 below 2^53,
/// doubling with each power of two above.
pub open spec fn f64_spacing(b: nat) -> nat
    decreases b,
{
    if b < 0x20_0000_0000_0000 {
        1
    } else {
        2 * f64_spacing(b / 2)
    }
}

/// `q + 1` when the remainder `r` of a division by `d` rounds the quotient
/// `q` up (above one half, or exactly one half with `q` odd), else `q`.
pub open spec fn round_half_even(q: nat, r: nat, d: nat) -> nat {
    if 2 * r > d || (2 * r == d && q % 2 == 1) {
        q + 1
    } else {
        q
    }
}

/// The value of `b as f64`: the nearest multiple of the spacing, ties to even.
pub open spec fn f64_value(b: nat) -> nat {
    let m = f64_spacing(b);
    round_half_even(b / m, b % m, m) * m
}

/// The unit a size is shown in: 0 for bytes up to 4 for TiB.
pub open spec fn size_unit(b: nat) -> nat {
    if b < 0x400 {
        0
    } else if b < 0x10_0000 {
        1
    } else if b < 0x4000_0000 {
        2
    } else if b < 0x100_0000_0000 {
        3
    } else {
        4
    }
}

/// The number of bytes in one of the given unit.
pub open spec fn unit_bytes(u: nat) -> nat {
    if u == 0 {
        1
    } else if u == 1 {
        0x400
    } else if u == 2 {
        0x10_0000
    } else if u == 3 {
        0x4000_0000
    } else {
        0x100_0000_0000
    }
}

/// The name of a unit.
pub open spec fn unit_name(u: nat) -> Seq<char> {
    if u == 0 {
        seq!['B']
    } else if u == 1 {
        seq!['K', 'i', 'B']
    } else if u == 2 {
        seq!['M', 'i', 'B']
    } else if u == 3 {
        seq!['G', 'i', 'B']
    } else {
        seq!['T', 'i', 'B']
    }
}

/// The decimal digit for a value below 10.
pub open spec fn decimal_digit(n: nat) -> char {
    ((n + 48) as u8) as char
}

/// The decimal digits of `n`.
pub open spec fn decimal(n: nat) -> Seq<char>
    decreases n,
{
    if n < 10 {
        seq![decimal_digit(n)]
    } else {
        decimal(n / 10) + seq![decimal_digit(n % 10)]
    }
}

/// A size in tenths of its unit, rounded as `{:.1}` rounds the `f64` value
/// (to nearest, ties to even).
pub open spec fn size_tenths(b: nat) -> nat {
    let d = unit_bytes(size_unit(b));
    let v = 10 * f64_value(b);
    round_half_even(v / d, v % d, d)
}

/// A size as people read it: the exact number of bytes below 1 KiB, else
/// the size in the largest unit up to TiB that it reaches, with one decimal.
pub open spec fn readable_size(b: nat) -> Seq<char> {
    let u = size_unit(b);
    if u == 0 {
        decimal(b) + seq![' '] + unit_name(0)
    } else {
        let t = size_tenths(b);
        decimal(t / 10) + seq!['.', decimal_digit(t % 10), ' '] + unit_name(u)
    }
}

/// The number that a sequence of decimal digits stands for.
pub open spec fn digits_value(ds: Seq<char>) -> int
    decreases ds.len(),
{
    if ds.len() == 0 {
        0
    } else {
        digits_value(ds.drop_last()) * 10 + ((ds.last() as u32) - 48)
    }
}

/// `decimal(n)` is the usual decimal numeral of `n`: digits only, no
/// leading zero, and standing for `n`.
pub proof fn law_decimal_is_the_numeral(n: nat)
    ensures
        decimal(n).len() >= 1,
        decimal(n).len() == 1 <==> n < 10,
        forall|i: int| 0 <= i < decimal(n).len() ==> '0' <= #[trigger] decimal(n)[i] <= '9',
        decimal(n).len() > 1 ==> decimal(n)[0] != '0',
        digits_value(decimal(n)) == n,
    decreases n,
{
    if n < 10 {
        let d = decimal(n);
        assert(d.drop_last() =~= Seq::<char>::empty());
        assert((decimal_digit(n) as u32) == n + 48);
        assert('0' <= decimal_digit(n) <= '9');
        assert(d.last() == decimal_digit(n));
        assert(digits_value(d) == digits_value(d.drop_last()) * 10 + ((d.last() as u32) - 48));
        assert(digits_value(Seq::<char>::empty()) == 0);
    } else {
        let m = n / 10;
        law_decimal_is_the_numeral(m);
        let d = decimal(n);
        assert(d.drop_last() =~= decimal(m));
        assert((decimal_digit(n % 10) as u32) == n % 10 + 48);
        assert(d[0] == decimal(m)[0]);
        if decimal(m).len() == 1 {
            assert(m >= 1);
            assert((decimal_digit(m) as u32) == m + 48);
        }
        assert(forall|i: int| 0 <= i < decimal(m).len() ==> d[i] == decimal(m)[i]);
        assert('0' <= decimal_digit(n % 10) <= '9');
        assert forall|i: int| 0 <= i < d.len() implies '0' <= #[trigger] d[i] <= '9' by {
            if i < decimal(m).len() {
                assert(d[i] == decimal(m)[i]);
            } else {
                assert(d[i] == decimal_digit(n % 10));
            }
        }
        assert(d.last() == decimal_digit(n % 10));
        assert(digits_value(d) == digits_value(d.drop_last()) * 10 + ((d.last() as u32) - 48));
        assert(m * 10 + n % 10 == n);
    }
}

/// A size is shown in the largest unit it reaches, up to TiB, and exactly
/// in bytes below 1 KiB; in a larger unit the tenths shown are the nearest to
/// the size (as an `f64`, which is the size itself below 2^53), within half a
/// tenth.
pub proof fn law_readable_size_is_nearest_tenth(b: u64)
    ensures
        size_unit(b as nat) == 0 <==> b < 1024,
        size_unit(b as nat) == 0 ==> readable_size(b as nat) == decimal(b as nat) + seq![' ', 'B'],
        size_unit(b as nat) > 0 ==> unit_bytes(size_unit(b as nat)) <= b && (size_unit(b as nat)
            == 4 || b < 1024 * unit_bytes(size_unit(b as nat))),
        b < 0x20_0000_0000_0000 ==> f64_value(b as nat) == b,
        size_unit(b as nat) > 0 ==> ({
            let d = unit_bytes(size_unit(b as nat)) as int;
            let t = size_tenths(b as nat) as int;
            let v = 10 * f64_value(b as nat);
            &&& 2 * (t * d - v) <= d
            &&& 2 * (v - t * d) <= d
        }),
{
    if b < 0x20_0000_0000_0000 {
        assert(f64_spacing(b as nat) == 1);
        assert((b as nat) / 1 == b && (b as nat) % 1 == 0) by (nonlinear_arith);
        let m = f64_spacing(b as nat);
        assert(m == 1);
        assert((b as nat) / m == b && (b as nat) % m == 0);
        assert(round_half_even(b as nat, 0, 1) == b);
        assert(f64_value(b as nat) == round_half_even((b as nat) / m, (b as nat) % m, m) * m);
    }
    if size_unit(b as nat) > 0 {
        let d = unit_bytes(size_unit(b as nat));
        let v = 10 * f64_value(b as nat);
        let q = v / d;
        let r = v % d;
        vstd::arithmetic::div_mod::lemma_fundamental_div_mod(v as int, d as int);
        assert(v == d * q + r);
        assert(0 <= r < d);
        assert(q * d == d * q) by (nonlinear_arith);
        assert((q + 1) * d == q * d + d) by (nonlinear_arith);
    }
}

/// Appends the decimal digits of `n`.
fn push_decimal(s: &mut String, n: u128)
    ensures
        final(s)@ == old(s)@ + decimal(n as nat),
    decreases n,
{
    if n >= 10 {
        push_decimal(s, n / 10);
    }
    let d: u8 = (n % 10) as u8;
    push_char(s, (d + 48) as char);
    assert(final(s)@ =~= old(s)@ + decimal(n as nat));
}

/// One halving step of the `f64` spacing.
proof fn lemma_spacing_step(m: nat, t: nat)
    requires
        t >= 0x20_0000_0000_0000,
    ensures
        m * f64_spacing(t) == (m * 2) * f64_spacing(t / 2),
{
    let x = f64_spacing(t / 2);
    assert(f64_spacing(t) == 2 * x);
    assert(m * (2 * x) == (m * 2) * x) by (nonlinear_arith);
}

/// The value of `b as f64`, as an integer.
fn f64_value_of(b: u64) -> (v: u128)
    ensures
        v == f64_value(b as nat),
        v <= 0x2_0000_0000_0000_0000,
{
    let mut m: u64 = 1;
    let mut t: u64 = b;
    while t >= 0x20_0000_0000_0000
        invariant
            1 <= m < 0x1000,
            t == b / m,
            f64_spacing(b as nat) == m * f64_spacing(t as nat),
        decreases t,
    {
        proof {
            lemma_spacing_step(m as nat, t as nat);
            vstd::arithmetic::div_mod::lemma_div_denominator(b as int, m as int, 2);
            vstd::arithmetic::div_mod::lemma_fundamental_div_mod(b as int, m as int);
            assert(m * t <= b);
            assert(m < 0x800) by (nonlinear_arith)
                requires
                    m * t <= b,
                    t >= 0x20_0000_0000_0000,
                    b < 0x1_0000_0000_0000_0000,
            ;
        }
        t = t / 2;
        m = m * 2;
    }
    assert(f64_spacing(t as nat) == 1);
    assert(m * f64_spacing(t as nat) == m) by (nonlinear_arith)
        requires
            f64_spacing(t as nat) == 1,
    ;
    assert(f64_spacing(b as nat) == m);
    let q: u64 = b / m;
    let r: u64 = b % m;
    let up: bool = 2 * (r as u128) > m as u128 || (2 * (r as u128) == m as u128 && q % 2 == 1);
    let rounded: u128 = if up { q as u128 + 1 } else { q as u128 };
    proof {
        vstd::arithmetic::div_mod::lemma_fundamental_div_mod(b as int, m as int);
        assert(rounded * m <= 0x2_0000_0000_0000_0000) by (nonlinear_arith)
            requires
                rounded <= q + 1,
                m * q <= b,
                m < 0x1000,
                b < 0x1_0000_0000_0000_0000,
        ;
    }
    rounded * (m as u128)
}

/// The number of bytes in one of the unit.
fn unit_bytes_of(u: u8) -> (d: u128)
    requires
        u <= 4,
    ensures
        d == unit_bytes(u as nat),
{
    if u == 0 {
        1
    } else if u == 1 {
        0x400
    } else if u == 2 {
        0x10_0000
    } else if u == 3 {
        0x4000_0000
    } else {
        0x100_0000_0000
    }
}

/// Appends the name of a unit.
fn push_unit_name(s: &mut String, u: u8)
    requires
        u <= 4,
    ensures
        final(s)@ == old(s)@ + unit_name(u as nat),
{
    let ghost before = s@;
    if u == 0 {
        s.append("B");
        proof {
            reveal_strlit("B");
        }
    } else if u == 1 {
        s.append("KiB");
        proof {
            reveal_strlit("KiB");
        }
    } else if u == 2 {
        s.append("MiB");
        proof {
            reveal_strlit("MiB");
        }
    } else if u == 3 {
        s.append("GiB");
        proof {
            reveal_strlit("GiB");
        }
    } else {
        s.append("TiB");
        proof {
            reveal_strlit("TiB");
        }
    }
    assert(s@ =~= before + unit_name(u as nat));
}

/// A file size as people read it, such as `10 B`, `1.5 KiB` or `5.0 MiB`:
/// the exact number of bytes below 1 KiB, else the size in the largest unit
/// up to TiB that it reaches, with one decimal, rounded from the size as an
/// `f64` to nearest with ties to even.
pub fn human_readable_size(bytes: u64) -> (s: String)
    ensures
        s@ == readable_size(bytes as nat),
{
    let unit: u8 = if bytes < 0x400 {
        0
    } else if bytes < 0x10_0000 {
        1
    } else if bytes < 0x4000_0000 {
        2
    } else if bytes < 0x100_0000_0000 {
        3
    } else {
        4
    };
    let mut s = String::new();
    if unit == 0 {
        push_decimal(&mut s, bytes as u128);
        push_char(&mut s, ' ');
        push_unit_name(&mut s, 0);
        assert(s@ =~= readable_size(bytes as nat));
        return s;
    }
    let d = unit_bytes_of(unit);
    let v: u128 = 10 * f64_value_of(bytes);
    let q: u128 = v / d;
    let r: u128 = v % d;
    let t: u128 = if 2 * r > d || (2 * r == d && q % 2 == 1) {
        q + 1
    } else {
        q
    };
    assert(t == size_tenths(bytes as nat));
    push_decimal(&mut s, t / 10);
    push_char(&mut s, '.');
    push_char(&mut s, ((t % 10) as u8 + 48) as char);
    push_char(&mut s, ' ');
    push_unit_name(&mut s, unit);
    assert(s@ =~= readable_size(bytes as nat));
    s
}

} // verus!
