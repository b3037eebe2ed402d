use crate::text::push_char;
use vstd::prelude::*;

verus! {

/// The classes of bytes that the dump tells apart.
#[derive(Copy, Clone, Debug, PartialEq, Eq, Structural)]
pub enum ByteCategory {
    Null,
    AsciiPrintable,
    AsciiWhitespace,
    AsciiOther,
    NonAscii,
}

/// The class of a byte: the null byte; the visible ASCII characters; space,
/// tab, line feed, form feed and carriage return; the rest of ASCII; and the
/// bytes above it.
pub open spec fn category_of(byte: u8) -> ByteCategory {
    if byte == 0x00 {
        ByteCategory::Null
    } else if 0x21 <= byte <= 0x7e {
        ByteCategory::AsciiPrintable
    } else if byte == 0x20 || byte == 0x09 || byte == 0x0a || byte == 0x0c || byte == 0x0d {
        ByteCategory::AsciiWhitespace
    } else if byte < 0x80 {
        ByteCategory::AsciiOther
    } else {
        ByteCategory::NonAscii
    }
}

/// The character that stands for a byte in the left column of the dump.
pub open spec fn glyph(byte: u8) -> char {
    match category_of(byte) {
        ByteCategory::Null => '0',
        ByteCategory::AsciiPrintable => byte as char,
        ByteCategory::AsciiWhitespace => if byte == 0x20 {
            ' '
        } else {
            '_'
        },
        ByteCategory::AsciiOther => '\u{2022}',
        ByteCategory::NonAscii => '\u{d7}',
    }
}

/// The lowercase hexadecimal digit for a number below sixteen.
pub open spec fn hex_digit(d: nat) -> char {
    if d < 10 {
        ('0' as u8 + d) as char
    } else {
        ('a' as u8 + d - 10) as char
    }
}

/// The two hexadecimal digits of a byte.
pub open spec fn hex_pair(byte: u8) -> Seq<char> {
    seq![hex_digit(byte as nat / 16), hex_digit(byte as nat % 16)]
}

/// The glyphs of the bytes of a row.
pub open spec fn glyphs(row: Seq<u8>) -> Seq<char> {
    Seq::new(row.len(), |i: int| glyph(row[i]))
}

/// `n` spaces.
pub open spec fn spaces(n: nat) -> Seq<char> {
    Seq::new(n, |i: int| ' ')
}

/// The bytes of a row in hexadecimal, separated by single spaces.
pub open spec fn hex_column(row: Seq<u8>) -> Seq<char>
    decreases row.len(),
{
    if row.len() == 0 {
        Seq::empty()
    } else if row.len() == 1 {
        hex_pair(row[0])
    } else {
        hex_column(row.drop_last()) + seq![' '] + hex_pair(row.last())
    }
}

/// One row of the dump, for at most sixteen bytes: their glyphs, padded with
/// spaces to sixteen characters, then three spaces, then the hexadecimal column.
pub open spec fn dump_row(row: Seq<u8>) -> Seq<char> {
    glyphs(row) + spaces((16 - row.len()) as nat) + spaces(3) + hex_column(row)
}

/// The number of rows that a buffer fills.
pub open spec fn row_count(bytes: Seq<u8>) -> nat {
    ((bytes.len() + 15) / 16) as nat
}

/// The bytes of row `k`: sixteen of them, or what is left in the last row.
pub open spec fn row_bytes(bytes: Seq<u8>, k: nat) -> Seq<u8> {
    let start = 16 * k as int;
    bytes.subrange(start, if start + 16 <= bytes.len() {
        start + 16
    } else {
        bytes.len() as int
    })
}

/// The first `n` rows of the dump of `bytes`, joined by line feeds.
pub open spec fn dump_rows(bytes: Seq<u8>, n: nat) -> Seq<char>
    decreases n,
{
    if n == 0 {
        Seq::empty()
    } else if n == 1 {
        dump_row(row_bytes(bytes, 0))
    } else {
        dump_rows(bytes, (n - 1) as nat) + seq!['\n'] + dump_row(row_bytes(bytes, (n - 1) as nat))
    }
}

/// The dump of a buffer: rows of sixteen bytes, joined by line feeds. An
/// empty buffer has an empty dump.
pub open spec fn dump(bytes: Seq<u8>) -> Seq<char> {
    dump_rows(bytes, row_count(bytes))
}

/// The number of line feeds in a text.
pub open spec fn line_feeds(text: Seq<char>) -> nat
    decreases text.len(),
{
    if text.len() == 0 {
        0
    } else if text.last() == '\n' {
        line_feeds(text.drop_last()) + 1
    } else {
        line_feeds(text.drop_last())
    }
}

proof fn lemma_line_feeds_of_parts(head: Seq<char>, tail: Seq<char>)
    ensures
        line_feeds(head + tail) == line_feeds(head) + line_feeds(tail),
    decreases tail.len(),
{
    if tail.len() == 0 {
        assert(head + tail =~= head);
    } else {
        assert((head + tail).drop_last() =~= head + tail.drop_last());
        lemma_line_feeds_of_parts(head, tail.drop_last());
    }
}

proof fn lemma_no_line_feeds(text: Seq<char>)
    requires
        forall|i: int| 0 <= i < text.len() ==> text[i] != '\n',
    ensures
        line_feeds(text) == 0,
    decreases text.len(),
{
    if text.len() > 0 {
        lemma_no_line_feeds(text.drop_last());
    }
}

proof fn lemma_hex_column_has_no_line_feed(row: Seq<u8>)
    ensures
        line_feeds(hex_column(row)) == 0,
    decreases row.len(),
{
    if row.len() == 0 {
    } else {
        lemma_no_line_feeds(hex_pair(row.last()));
        lemma_no_line_feeds(hex_pair(row[0]));
        if row.len() > 1 {
            lemma_hex_column_has_no_line_feed(row.drop_last());
            lemma_no_line_feeds(seq![' ']);
            lemma_line_feeds_of_parts(hex_column(row.drop_last()), seq![' ']);
            lemma_line_feeds_of_parts(hex_column(row.drop_last()) + seq![' '], hex_pair(row.last()));
        }
    }
}

/// A row of the dump holds no line feed.
pub proof fn lemma_row_has_no_line_feed(row: Seq<u8>)
    ensures
        line_feeds(dump_row(row)) == 0,
{
    lemma_no_line_feeds(glyphs(row));
    lemma_no_line_feeds(spaces((16 - row.len()) as nat));
    lemma_no_line_feeds(spaces(3));
    lemma_hex_column_has_no_line_feed(row);
    let padded = glyphs(row) + spaces((16 - row.len()) as nat);
    lemma_line_feeds_of_parts(glyphs(row), spaces((16 - row.len()) as nat));
    lemma_line_feeds_of_parts(padded, spaces(3));
    lemma_line_feeds_of_parts(padded + spaces(3), hex_column(row));
}

/// The line feeds of a dump stand between its rows and nowhere else: the
/// dump of a buffer that is not empty holds one line feed less than the
/// buffer fills rows, and every sixteen bytes begin a row.
pub proof fn lemma_dump_line_feeds(bytes: Seq<u8>)
    ensures
        bytes.len() == 0 ==> dump(bytes) == Seq::<char>::empty(),
        bytes.len() > 0 ==> line_feeds(dump(bytes)) + 1 == row_count(bytes),
        row_count(bytes) * 16 >= bytes.len() > row_count(bytes) * 16 - 16,
{
    lemma_line_feeds_of_rows(bytes, row_count(bytes));
}

proof fn lemma_line_feeds_of_rows(bytes: Seq<u8>, n: nat)
    ensures
        n > 0 ==> line_feeds(dump_rows(bytes, n)) + 1 == n,
    decreases n,
{
    if n == 1 {
        lemma_row_has_no_line_feed(row_bytes(bytes, 0));
    } else if n > 1 {
        let before = dump_rows(bytes, (n - 1) as nat);
        lemma_line_feeds_of_rows(bytes, (n - 1) as nat);
        lemma_row_has_no_line_feed(row_bytes(bytes, (n - 1) as nat));
        lemma_line_feeds_of_parts(before, seq!['\n']);
        lemma_line_feeds_of_parts(before + seq!['\n'], dump_row(row_bytes(bytes, (n - 1) as nat)));
        assert(line_feeds(seq!['\n']) == 1) by {
            let feed = seq!['\n'];
            assert(feed.last() == '\n');
            assert(feed.drop_last().len() == 0);
            reveal_with_fuel(line_feeds, 2);
        }
    }
}

/// A byte as the dump sees it.
#[derive(Copy, Clone)]
pub struct Byte(pub u8);

impl Byte {
    pub fn category(self) -> (r: ByteCategory)
        ensures
            r == category_of(self.0),
    {
        if self.0 == 0x00 {
            ByteCategory::Null
        } else if 0x21 <= self.0 && self.0 <= 0x7e {
            ByteCategory::AsciiPrintable
        } else if self.0 == 0x20 || self.0 == 0x09 || self.0 == 0x0a || self.0 == 0x0c || self.0
            == 0x0d {
            ByteCategory::AsciiWhitespace
        } else if self.0 < 0x80 {
            ByteCategory::AsciiOther
        } else {
            ByteCategory::NonAscii
        }
    }

    pub fn as_char(self) -> (r: char)
        ensures
            r == glyph(self.0),
    {
        match self.category() {
            ByteCategory::Null => '0',
            ByteCategory::AsciiPrintable => self.0 as char,
            ByteCategory::AsciiWhitespace => if self.0 == 0x20 {
                ' '
            } else {
                '_'
            },
            ByteCategory::AsciiOther => '\u{2022}',
            ByteCategory::NonAscii => '\u{d7}',
        }
    }

    pub fn as_hex(self) -> (r: String)
        ensures
            r@ == hex_pair(self.0),
    {
        let mut text = String::new();
        push_char(&mut text, hex_digit_char(self.0 / 16));
        push_char(&mut text, hex_digit_char(self.0 % 16));
        assert(text@ =~= hex_pair(self.0));
        text
    }
}

fn hex_digit_char(d: u8) -> (r: char)
    requires
        d < 16,
    ensures
        r == hex_digit(d as nat),
{
    if d < 10 {
        (0x30u8 + d) as char
    } else {
        (0x61u8 + (d - 10)) as char
    }
}

fn push_row(text: &mut String, row: &[u8])
    requires
        row@.len() <= 16,
    ensures
        final(text)@ == old(text)@ + dump_row(row@),
{
    let mut i: usize = 0;
    while i < row.len()
        invariant
            i <= row.len(),
            text@ == old(text)@ + glyphs(row@).take(i as int),
        decreases row.len() - i,
    {
        push_char(text, Byte(row[i]).as_char());
        i += 1;
        assert(glyphs(row@).take(i as int) =~= glyphs(row@).take(i - 1).push(glyph(row@[i - 1])));
    }
    assert(glyphs(row@).take(i as int) =~= glyphs(row@));
    let ghost padded = text@;
    let mut pad: usize = row.len();
    while pad < 19
        invariant
            row.len() <= pad <= 19,
            text@ == padded + spaces((pad - row.len()) as nat),
        decreases 19 - pad,
    {
        push_char(text, ' ');
        pad += 1;
        assert(spaces((pad - row.len()) as nat) =~= spaces((pad - 1 - row.len()) as nat).push(' '));
    }
    assert(spaces((19 - row.len()) as nat) =~= spaces((16 - row.len()) as nat) + spaces(3));
    let ghost before_hex = text@;
    let mut j: usize = 0;
    while j < row.len()
        invariant
            j <= row.len(),
            text@ == before_hex + hex_column(row@.take(j as int)),
        decreases row.len() - j,
    {
        if j > 0 {
            push_char(text, ' ');
        }
        push_char(text, hex_digit_char(row[j] / 16));
        push_char(text, hex_digit_char(row[j] % 16));
        j += 1;
        proof {
            let upto = row@.take(j as int);
            assert(upto.drop_last() =~= row@.take(j - 1));
            assert(upto.last() == row@[j - 1]);
            assert(text@ =~= before_hex + hex_column(upto));
        }
    }
    assert(row@.take(j as int) =~= row@);
    assert(text@ =~= old(text)@ + dump_row(row@));
}

/// Renders a buffer as rows of sixteen bytes, each with the glyphs of its bytes
/// on the left and their hexadecimal digits on the right.
pub fn format_as_ascii_and_hex(buffer: &[u8]) -> (r: String)
    ensures
        r@ == dump(buffer@),
{
    let mut text = String::new();
    let mut start: usize = 0;
    let ghost mut rows: nat = 0;
    while start < buffer.len()
        invariant
            start <= buffer.len(),
            rows <= row_count(buffer@),
            start < buffer.len() ==> start == 16 * rows,
            start == buffer.len() ==> rows == row_count(buffer@),
            text@ == dump_rows(buffer@, rows),
        decreases buffer.len() - start,
    {
        let end: usize = if buffer.len() - start > 16 {
            start + 16
        } else {
            buffer.len()
        };
        if start > 0 {
            push_char(&mut text, '\n');
        }
        let row = vstd::slice::slice_subrange(buffer, start, end);
        assert(row@ == row_bytes(buffer@, rows));
        push_row(&mut text, row);
        proof {
            rows = rows + 1;
        }
        start = end;
    }
    text
}

} // verus!
