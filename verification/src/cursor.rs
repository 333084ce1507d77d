use vstd::prelude::*;
use vstd::string::StrSliceExecFns;

verus! {

/// Number of bytes in the UTF-8 encoding of a character: 1 below U+0080,
/// 2 below U+0800, 3 below U+10000, 4 above.
pub open spec fn char_width(c: char) -> int {
    if (c as u32) < 0x80 {
        1
    } else if (c as u32) < 0x800 {
        2
    } else if (c as u32) < 0x10000 {
        3
    } else {
        4
    }
}

/// Byte offset of the character at position `p` of `s`: the sum of the
/// UTF-8 widths of the characters before it.
pub open spec fn byte_offset(s: Seq<char>, p: int) -> int
    decreases p,
{
    if p <= 0 {
        0
    } else {
        byte_offset(s, p - 1) + char_width(s[p - 1])
    }
}

/// Byte length of the whole text.
pub open spec fn byte_len_of(s: Seq<char>) -> int {
    byte_offset(s, s.len() as int)
}

pub proof fn lemma_byte_offset_mono(s: Seq<char>, p: int, q: int)
    requires
        p <= q,
    ensures
        byte_offset(s, p) <= byte_offset(s, q),
    decreases q - p,
{
    if p < q {
        lemma_byte_offset_mono(s, p, q - 1);
    }
}

/// Characters with the Unicode `White_Space` property.
pub open spec fn is_whitespace_char(c: char) -> bool {
    let u = c as u32;
    ||| u == 0x09
    ||| u == 0x0A
    ||| u == 0x0B
    ||| u == 0x0C
    ||| u == 0x0D
    ||| u == 0x20
    ||| u == 0x85
    ||| u == 0xA0
    ||| u == 0x1680
    ||| (0x2000 <= u && u <= 0x200A)
    ||| u == 0x2028
    ||| u == 0x2029
    ||| u == 0x202F
    ||| u == 0x205F
    ||| u == 0x3000
}

pub fn whitespace_char(c: char) -> (b: bool)
    ensures
        b == is_whitespace_char(c),
{
    let u = c as u32;
    u == 0x09 || u == 0x0A || u == 0x0B || u == 0x0C || u == 0x0D || u == 0x20 || u == 0x85
        || u == 0xA0 || u == 0x1680 || (0x2000 <= u && u <= 0x200A) || u == 0x2028 || u == 0x2029
        || u == 0x202F || u == 0x205F || u == 0x3000
}

fn char_width_bytes(c: char) -> (w: usize)
    ensures
        w == char_width(c),
{
    let u = c as u32;
    if u < 0x80 {
        1
    } else if u < 0x800 {
        2
    } else if u < 0x10000 {
        3
    } else {
        4
    }
}

/// Relies on `str::len`: the length of a string in bytes, which is the sum
/// of the UTF-8 widths of its characters and fits in a `usize`.
#[verifier::external_body]
fn str_byte_len(s: &str) -> (n: usize)
    ensures
        n == byte_len_of(s@),
{
    s.len()
}

/// A scanning position in a piece of text: the characters, the position of
/// the next character to consume, and that position's byte offset, which
/// is what errors report.
pub struct Cursor<'a> {
    pub text: &'a str,
    pub len: usize,
    pub pos: usize,
    pub bpos: usize,
}

impl<'a> Cursor<'a> {
    pub open spec fn wf(&self) -> bool {
        &&& self.len == self.text@.len()
        &&& self.pos <= self.len
        &&& self.bpos == byte_offset(self.text@, self.pos as int)
        &&& byte_len_of(self.text@) <= usize::MAX
    }

    /// The byte offset and character under the cursor, as `next` and
    /// `peek` hand them out.
    pub open spec fn spec_peek(&self) -> Option<(usize, char)> {
        if self.pos < self.text@.len() {
            Some((self.bpos, self.text@[self.pos as int]))
        } else {
            None
        }
    }

    pub fn new(text: &'a str) -> (c: Cursor<'a>)
        ensures
            c.wf(),
            c.text@ == text@,
            c.pos == 0,
            c.bpos == 0,
    {
        let len = text.unicode_len();
        let _total = str_byte_len(text);
        Cursor { text, len, pos: 0, bpos: 0 }
    }

    /// Look at the next character without consuming it.
    pub fn peek(&self) -> (r: Option<(usize, char)>)
        requires
            self.wf(),
        ensures
            r == self.spec_peek(),
    {
        if self.pos < self.len {
            Some((self.bpos, self.text.get_char(self.pos)))
        } else {
            None
        }
    }

    /// Consume the next character, handing out its byte offset as well.
    pub fn next(&mut self) -> (r: Option<(usize, char)>)
        requires
            old(self).wf(),
        ensures
            final(self).wf(),
            final(self).text@ == old(self).text@,
            r == old(self).spec_peek(),
            old(self).pos < old(self).text@.len() ==> final(self).pos == old(self).pos + 1,
            old(self).pos >= old(self).text@.len() ==> *final(self) == *old(self),
    {
        if self.pos < self.len {
            let c = self.text.get_char(self.pos);
            let i = self.bpos;
            let w = char_width_bytes(c);
            proof {
                lemma_byte_offset_mono(self.text@, self.pos + 1, self.text@.len() as int);
            }
            self.pos = self.pos + 1;
            self.bpos = self.bpos + w;
            Some((i, c))
        } else {
            None
        }
    }
}

} // verus!
