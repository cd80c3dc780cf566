//! The indentation formatter: every line of a message gets a run of spaces in
//! front of it, as wide as the nesting depth asks for.
//!
//! A text is read as lines the way `str::lines` reads it: lines end at a line
//! feed, a carriage return directly before that line feed belongs to the line
//! ending, and the last line needs no line ending. What is written joins the
//! indented lines with single line feeds.
use vstd::prelude::*;

verus! {

/// `n` space characters.
pub open spec fn spaces(n: nat) -> Seq<char> {
    Seq::new(n, |i: int| ' ')
}

/// The stretches of `text` between its line feeds, in order. A text with `k`
/// line feeds has `k + 1` pieces; the last one is what follows the last line
/// feed.
pub open spec fn pieces(text: Seq<char>) -> Seq<Seq<char>>
    decreases text.len(),
{
    if text.len() == 0 {
        seq![Seq::<char>::empty()]
    } else {
        let before = pieces(text.drop_last());
        if text.last() == '\n' {
            before.push(Seq::<char>::empty())
        } else {
            before.drop_last().push(before.last().push(text.last()))
        }
    }
}

/// A piece that a line feed ended, without the carriage return of that line
/// ending.
pub open spec fn without_cr(piece: Seq<char>) -> Seq<char> {
    if piece.len() > 0 && piece.last() == '\r' {
        piece.drop_last()
    } else {
        piece
    }
}

/// The lines of `text` that a line feed ended: every piece but the last,
/// each without the carriage return of its line ending.
pub open spec fn ended_lines(text: Seq<char>) -> Seq<Seq<char>> {
    let parts = pieces(text);
    Seq::new((parts.len() - 1) as nat, |i: int| without_cr(parts[i]))
}

/// What follows the last line feed of `text`; all of `text` if it has none.
pub open spec fn last_piece(text: Seq<char>) -> Seq<char> {
    pieces(text).last()
}

/// The lines of `text`: the lines that a line feed ended, and then the last
/// piece as it stands, unless it is empty.
pub open spec fn lines_of(text: Seq<char>) -> Seq<Seq<char>> {
    if last_piece(text).len() == 0 {
        ended_lines(text)
    } else {
        ended_lines(text).push(last_piece(text))
    }
}

/// The lines with one line feed between each two of them.
pub open spec fn join_lines(lines: Seq<Seq<char>>) -> Seq<char>
    decreases lines.len(),
{
    if lines.len() == 0 {
        Seq::<char>::empty()
    } else if lines.len() == 1 {
        lines[0]
    } else {
        join_lines(lines.drop_last()) + seq!['\n'] + lines.last()
    }
}

/// Each line with `width` spaces in front of it.
pub open spec fn indent_lines(lines: Seq<Seq<char>>, width: nat) -> Seq<Seq<char>> {
    Seq::new(lines.len(), |i: int| spaces(width) + lines[i])
}

/// `text` with each of its lines indented by `width` spaces.
pub open spec fn indented(text: Seq<char>, width: nat) -> Seq<char> {
    join_lines(indent_lines(lines_of(text), width))
}

/// Every text has a last piece.
pub proof fn lemma_pieces_nonempty(text: Seq<char>)
    ensures
        pieces(text).len() >= 1,
    decreases text.len(),
{
    if text.len() > 0 {
        lemma_pieces_nonempty(text.drop_last());
    }
}

/// Reading a line feed ends the last piece.
proof fn lemma_read_line_feed(text: Seq<char>)
    ensures
        ended_lines(text.push('\n')) == ended_lines(text).push(without_cr(last_piece(text))),
        last_piece(text.push('\n')) == Seq::<char>::empty(),
{
    lemma_pieces_nonempty(text);
    assert(text.push('\n').drop_last() == text);
}

/// Reading any other character extends the last piece.
proof fn lemma_read_inside(text: Seq<char>, c: char)
    requires
        c != '\n',
    ensures
        ended_lines(text.push(c)) == ended_lines(text),
        last_piece(text.push(c)) == last_piece(text).push(c),
{
    lemma_pieces_nonempty(text);
    assert(text.push(c).drop_last() == text);
}

/// One more line adds a line feed, unless it is the first, and the line.
proof fn lemma_join_push(lines: Seq<Seq<char>>, line: Seq<char>)
    ensures
        join_lines(lines.push(line)) == if lines.len() == 0 {
            line
        } else {
            join_lines(lines) + seq!['\n'] + line
        },
{
    assert(lines.push(line).drop_last() == lines);
}

/// The indented lines, joined, when `line` comes after `lines`: what the
/// lines before it give, a line feed unless it is the first, the spaces, and
/// the line.
proof fn lemma_indented_push(lines: Seq<Seq<char>>, line: Seq<char>, width: nat)
    ensures
        join_lines(indent_lines(lines.push(line), width)) == line_start(lines, width) + line,
{
    assert(indent_lines(lines.push(line), width) == indent_lines(lines, width).push(
        spaces(width) + line,
    ));
    lemma_join_push(indent_lines(lines, width), spaces(width) + line);
}

/// What is written before the text of the line that comes after `lines`.
spec fn line_start(lines: Seq<Seq<char>>, width: nat) -> Seq<char> {
    if lines.len() == 0 {
        spaces(width)
    } else {
        join_lines(indent_lines(lines, width)) + seq!['\n'] + spaces(width)
    }
}

/// What `format` has written when it has read `seen`: the ended lines and,
/// unless the last piece is empty, the start of the next line and the last
/// piece without a carriage return at its end.
spec fn written(seen: Seq<char>, width: nat) -> Seq<char> {
    if last_piece(seen).len() == 0 {
        join_lines(indent_lines(ended_lines(seen), width))
    } else {
        line_start(ended_lines(seen), width) + without_cr(last_piece(seen))
    }
}

/// No line feed occurs in `line`.
pub open spec fn no_line_feed(line: Seq<char>) -> bool {
    forall|i: int| 0 <= i < line.len() ==> line[i] != '\n'
}

/// The pieces of a text hold no line feed.
pub proof fn lemma_pieces_hold_no_line_feed(text: Seq<char>)
    ensures
        forall|i: int| 0 <= i < pieces(text).len() ==> no_line_feed(#[trigger] pieces(text)[i]),
    decreases text.len(),
{
    if text.len() > 0 {
        lemma_pieces_hold_no_line_feed(text.drop_last());
        lemma_pieces_nonempty(text.drop_last());
    }
}

/// Text without a line feed, put behind `text`, extends its last piece.
proof fn lemma_pieces_extend(text: Seq<char>, more: Seq<char>)
    requires
        no_line_feed(more),
    ensures
        pieces(text + more) == pieces(text).drop_last().push(last_piece(text) + more),
    decreases more.len(),
{
    lemma_pieces_nonempty(text);
    if more.len() == 0 {
        assert(text + more == text);
        assert(last_piece(text) + more == last_piece(text));
        assert(pieces(text).drop_last().push(last_piece(text)) == pieces(text));
    } else {
        let shorter = more.drop_last();
        lemma_pieces_extend(text, shorter);
        assert((text + more).drop_last() == text + shorter);
        assert((last_piece(text) + shorter).push(more.last()) == last_piece(text) + more);
        assert(pieces(text).drop_last().push(last_piece(text) + shorter).drop_last() == pieces(
            text,
        ).drop_last());
    }
}

/// Lines without a line feed, joined, fall into those lines again at the
/// line feeds between them.
proof fn lemma_pieces_of_joined(lines: Seq<Seq<char>>)
    requires
        lines.len() > 0,
        forall|i: int| 0 <= i < lines.len() ==> no_line_feed(#[trigger] lines[i]),
    ensures
        pieces(join_lines(lines)) == lines,
    decreases lines.len(),
{
    if lines.len() == 1 {
        lemma_pieces_extend(Seq::<char>::empty(), lines[0]);
        assert(Seq::<char>::empty() + lines[0] == lines[0]);
        assert(pieces(Seq::<char>::empty()).drop_last().push(Seq::<char>::empty() + lines[0])
            == lines);
    } else {
        let front = lines.drop_last();
        let joined = join_lines(front);
        assert forall|i: int| 0 <= i < front.len() implies no_line_feed(#[trigger] front[i]) by {
            assert(front[i] == lines[i]);
        }
        lemma_pieces_of_joined(front);
        assert(joined + seq!['\n'] == joined.push('\n'));
        assert(joined.push('\n').drop_last() == joined);
        lemma_pieces_extend(joined.push('\n'), lines.last());
        assert(front.push(Seq::<char>::empty()).drop_last().push(
            Seq::<char>::empty() + lines.last(),
        ) == lines);
    }
}

/// A text that is not empty and holds no line feed is one line, and indenting
/// it puts the spaces in front of it.
pub proof fn lemma_one_line(text: Seq<char>, width: nat)
    requires
        text.len() > 0,
        no_line_feed(text),
    ensures
        lines_of(text) == seq![text],
        indented(text, width) == spaces(width) + text,
{
    lemma_pieces_extend(Seq::<char>::empty(), text);
    assert(Seq::<char>::empty() + text == text);
    assert(pieces(Seq::<char>::empty()).drop_last().push(text) == seq![text]);
    assert(ended_lines(text) == Seq::<Seq<char>>::empty());
    assert(ended_lines(text).push(text) == seq![text]);
    assert(indent_lines(seq![text], width) == seq![spaces(width) + text]);
}

/// No line but the last ends in a carriage return, and the last line is not
/// empty unless there is an indent: the lines that, once indented and joined,
/// are read back as they are.
pub open spec fn reads_back(lines: Seq<Seq<char>>, width: nat) -> bool {
    &&& forall|i: int|
        0 <= i < lines.len() - 1 ==> without_cr(#[trigger] lines[i]) == lines[i]
    &&& lines.len() > 0 ==> width > 0 || lines.last().len() > 0
}

/// What `format` writes for a text has as many lines as the text, and each of
/// them is the line of the text at its place with the indent in front of it
/// and nothing else changed.
///
/// A line that ends in a carriage return and is not the last would lose it
/// when read back, and an empty last line without indent would not be read
/// back at all: `reads_back` leaves these texts out, and
/// `lemma_lines_not_preserved` shows that it leaves out no others.
pub proof fn law_lines_preserved(text: Seq<char>, width: nat)
    requires
        reads_back(lines_of(text), width),
    ensures
        lines_of(indented(text, width)).len() == lines_of(text).len(),
        forall|i: int|
            0 <= i < lines_of(text).len() ==> lines_of(indented(text, width))[i] == spaces(width)
                + lines_of(text)[i],
        lines_of(indented(text, width)) == indent_lines(lines_of(text), width),
{
    let lines = lines_of(text);
    let shown = indent_lines(lines, width);
    lemma_pieces_nonempty(text);
    lemma_pieces_hold_no_line_feed(text);
    if lines.len() == 0 {
        assert(indented(text, width) == Seq::<char>::empty());
    } else {
        assert forall|i: int| 0 <= i < shown.len() implies no_line_feed(#[trigger] shown[i]) by {
            if i < pieces(text).len() - 1 {
                assert(no_line_feed(pieces(text)[i]));
            } else {
                assert(no_line_feed(pieces(text)[pieces(text).len() - 1]));
            }
        }
        lemma_pieces_of_joined(shown);
        assert forall|i: int| 0 <= i < shown.len() - 1 implies without_cr(shown[i])
            == shown[i] by {
            assert(without_cr(lines[i]) == lines[i]);
        }
        assert(lines_of(join_lines(shown)) == shown);
    }
}

/// Where `reads_back` fails, what `format` writes is not read back as the
/// indented lines of the text.
pub proof fn lemma_lines_not_preserved(text: Seq<char>, width: nat)
    requires
        !reads_back(lines_of(text), width),
    ensures
        lines_of(indented(text, width)) != indent_lines(lines_of(text), width),
{
    let lines = lines_of(text);
    let shown = indent_lines(lines, width);
    lemma_pieces_nonempty(text);
    lemma_pieces_hold_no_line_feed(text);
    assert(lines.len() > 0);
    assert forall|i: int| 0 <= i < shown.len() implies no_line_feed(#[trigger] shown[i]) by {
        if i < pieces(text).len() - 1 {
            assert(no_line_feed(pieces(text)[i]));
        } else {
            assert(no_line_feed(pieces(text)[pieces(text).len() - 1]));
        }
    }
    lemma_pieces_of_joined(shown);
    let back = lines_of(join_lines(shown));
    if width == 0 && lines.last().len() == 0 {
        assert(shown.last().len() == 0);
        assert(back.len() == shown.len() - 1);
    } else {
        let i = choose|i: int| 0 <= i < lines.len() - 1 && without_cr(#[trigger] lines[i]) != lines[i];
        assert(shown[i].last() == '\r');
        assert(without_cr(shown[i]).len() != shown[i].len());
        assert(back[i] == without_cr(shown[i]));
    }
}

/// `depth * indent_width` spaces.
fn padding(depth: usize, indent_width: usize) -> (pad: String)
    ensures
        pad@ == spaces((depth * indent_width) as nat),
{
    let mut pad = String::new();
    let mut d: usize = 0;
    while d < depth
        invariant
            d <= depth,
            pad@ == spaces((d * indent_width) as nat),
        decreases depth - d,
    {
        let mut w: usize = 0;
        while w < indent_width
            invariant
                w <= indent_width,
                pad@ == spaces((d * indent_width + w) as nat),
            decreases indent_width - w,
        {
            pad.push(' ');
            w += 1;
        }
        proof {
            assert((d + 1) * indent_width == d * indent_width + indent_width)
                by (nonlinear_arith);
        }
        d += 1;
    }
    pad
}

/// `String::push` of the standard library, taken on trust: the string after
/// the call is the string before it with `ch` as one more character at its end.
pub assume_specification[ String::push ](s: &mut String, ch: char)
    ensures
        final(s)@ == old(s)@.push(ch),
;

/// Prefixes every line of `text` with `depth * indent_width` spaces.
///
/// The lines come out in order, joined by single line feeds; a line ending at
/// the end of `text` is not written. Where the lines can be read back, what
/// comes out has the lines of `text`, each behind its indent.
pub fn format(text: &str, depth: usize, indent_width: usize) -> (out: String)
    ensures
        out@ == indented(text@, (depth * indent_width) as nat),
        reads_back(lines_of(text@), (depth * indent_width) as nat) ==> lines_of(out@)
            == indent_lines(lines_of(text@), (depth * indent_width) as nat),
{
    let pad = padding(depth, indent_width);
    let ghost width = (depth * indent_width) as nat;
    let mut out = String::new();
    let mut started = false;
    let mut open = false;
    let mut held_cr = false;
    for c in it: text.chars()
        invariant
            it.seq() == text@,
            pad@ == spaces(width),
            started == (ended_lines(it.seq().take(it.index())).len() > 0),
            open == (last_piece(it.seq().take(it.index())).len() > 0),
            held_cr == (open && last_piece(it.seq().take(it.index())).last() == '\r'),
            out@ == written(it.seq().take(it.index()), width),
    {
        let ghost seen = it.seq().take(it.index());
        let ghost ended = ended_lines(seen);
        let ghost last = last_piece(seen);
        proof {
            assert(it.seq().take(it.index() + 1) == seen.push(c));
        }
        if !open {
            if started {
                out.push('\n');
            }
            out.append(pad.as_str());
        }
        assert(out@ == line_start(ended, width) + without_cr(last));
        if c == '\n' {
            proof {
                lemma_read_line_feed(seen);
                lemma_indented_push(ended, without_cr(last), width);
            }
            started = true;
            open = false;
            held_cr = false;
        } else {
            proof {
                lemma_read_inside(seen, c);
            }
            if held_cr {
                out.push('\r');
                assert(without_cr(last).push('\r') == last);
            }
            assert(out@ == line_start(ended, width) + last);
            if c == '\r' {
                held_cr = true;
                assert(without_cr(last.push(c)) == last);
            } else {
                out.push(c);
                held_cr = false;
            }
            open = true;
        }
    }
    let ghost ended = ended_lines(text@);
    let ghost last = last_piece(text@);
    proof {
        assert(text@.take(text@.len() as int) == text@);
    }
    if held_cr {
        out.push('\r');
        assert(without_cr(last).push('\r') == last);
    }
    proof {
        if last.len() > 0 {
            lemma_indented_push(ended, last, width);
        }
        if reads_back(lines_of(text@), width) {
            law_lines_preserved(text@, width);
        }
    }
    out
}

} // verus!
