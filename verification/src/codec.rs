//! The markdown document codec: serializing an ordered list of items to a
//! human-editable document and parsing such a document back, with the
//! round-trip law relating the two.
use vstd::prelude::*;
use vstd::string::*;
use crate::text::append_chars;
use crate::text::chars_of_str;
use crate::text::find_from;
use crate::text::find_pattern;
use crate::text::is_space_char;
use crate::text::lemma_join_take_snoc;
use crate::text::lemma_trim_left_at;
use crate::text::lemma_trim_right_at;
use crate::text::split_chars;
use crate::text::string_of_chars;
use crate::text::subrange_chars;
use crate::text::is_space;
use crate::text::join_with;
use crate::text::lemma_find_from;
use crate::text::lemma_join_of_split;
use crate::text::lemma_single_char_sep_free;
use crate::text::lemma_split_no_blank_pieces;
use crate::text::lemma_split_of_join;
use crate::text::lemma_split_on_len;
use crate::text::lemma_split_pieces_no_sep;
use crate::text::lemma_trim_noop;
use crate::text::occurs_at;
use crate::text::sep_free;
use crate::text::spec_trim;
use crate::text::split_on;
use crate::todo::desc_text;
use crate::todo::header_of;
use crate::todo::marker_char;
use crate::todo::spec_block;
use crate::todo::strip_id;
use crate::todo::Todo;
use crate::todo::TodoModel;

verus! {

/// The fixed separator written between two serialized items.
pub open spec fn spec_divider() -> Seq<char> {
    seq!['\n', '\n', '<', '!', '-', '-', '-', '-', '>', '\n', '\n']
}

/// The line separator.
pub open spec fn nl() -> Seq<char> {
    seq!['\n']
}

/// The one way a document can fail to parse: a block whose first
/// non-blank line is not a valid item header.
#[derive(Clone, Copy, Debug, PartialEq, Eq)]
pub enum ParseError {
    MalformedHeader,
}

/// The first position at or after `i` holding a non-whitespace character.
pub open spec fn skip_spaces(line: Seq<char>, i: int) -> int
    decreases line.len() - i,
{
    if 0 <= i < line.len() && is_space(line[i]) {
        skip_spaces(line, i + 1)
    } else {
        i
    }
}

/// A header line: `#`, optional whitespace, a bracketed marker, optional
/// whitespace, then the title. Only the first closing bracket counts;
/// the marker `X` means done.
pub open spec fn parse_header(line: Seq<char>) -> Option<(bool, Seq<char>)> {
    if line.len() == 0 || line[0] != '#' {
        None
    } else {
        let i = skip_spaces(line, 1);
        if i >= line.len() || line[i] != '[' {
            None
        } else {
            match find_from(line, seq![']'], i + 1) {
                None => None,
                Some(j) => {
                    let marker = line.subrange(i + 1, j);
                    let k = skip_spaces(line, j + 1);
                    Some((marker == seq!['X'], line.subrange(k, line.len() as int)))
                },
            }
        }
    }
}

/// The lines of a block with the empty ones removed.
pub open spec fn drop_blank_lines(lines: Seq<Seq<char>>) -> Seq<Seq<char>>
    decreases lines.len(),
{
    if lines.len() == 0 {
        Seq::empty()
    } else if lines[0].len() == 0 {
        drop_blank_lines(lines.skip(1))
    } else {
        seq![lines[0]] + drop_blank_lines(lines.skip(1))
    }
}

/// An empty description is normalized to absent.
pub open spec fn normalize_desc(d: Seq<char>) -> Option<Seq<char>> {
    if d.len() == 0 {
        None
    } else {
        Some(d)
    }
}

/// One block: the first non-blank line is the header; the remaining
/// non-blank lines, joined and trimmed, are the description.
pub open spec fn parse_block(block: Seq<char>) -> Result<TodoModel, ParseError> {
    let lines = drop_blank_lines(split_on(block, nl()));
    if lines.len() == 0 {
        Err(ParseError::MalformedHeader)
    } else {
        match parse_header(lines[0]) {
            None => Err(ParseError::MalformedHeader),
            Some((done, title)) => Ok(
                TodoModel {
                    id: None,
                    title,
                    description: normalize_desc(spec_trim(join_with(lines.skip(1), nl()))),
                    done,
                },
            ),
        }
    }
}

/// All blocks in order; the first malformed one fails the whole parse.
pub open spec fn parse_blocks(blocks: Seq<Seq<char>>) -> Result<Seq<TodoModel>, ParseError>
    decreases blocks.len(),
{
    if blocks.len() == 0 {
        Ok(Seq::empty())
    } else {
        match parse_block(blocks[0]) {
            Err(e) => Err(e),
            Ok(m) => match parse_blocks(blocks.skip(1)) {
                Err(e) => Err(e),
                Ok(rest) => Ok(seq![m] + rest),
            },
        }
    }
}

/// The whole document: blocks joined by the divider, no trailing divider,
/// the empty list giving the empty document.
pub open spec fn spec_serialize(items: Seq<TodoModel>) -> Seq<char> {
    join_with(items.map_values(|m: TodoModel| spec_block(m)), spec_divider())
}

/// The whole parse: the empty document is the empty list; anything else
/// is split on the divider and parsed block by block.
pub open spec fn spec_parse(doc: Seq<char>) -> Result<Seq<TodoModel>, ParseError> {
    if doc.len() == 0 {
        Ok(Seq::empty())
    } else {
        parse_blocks(split_on(doc, spec_divider()))
    }
}

/// A title that survives the round trip: non-empty, on one line, and not
/// opening with whitespace (which the header parse would strip).
pub open spec fn wf_title(t: Seq<char>) -> bool {
    t.len() > 0 && !is_space(t[0]) && (forall|k: int| 0 <= k < t.len() ==> t[k] != '\n')
}

/// A description that survives the round trip: absent, or non-empty with
/// no blank line inside and no whitespace at either end (parsing drops
/// blank lines and trims).
pub open spec fn wf_description(d: Option<Seq<char>>) -> bool {
    match d {
        None => true,
        Some(s) => s.len() > 0 && !is_space(s[0]) && !is_space(s[s.len() - 1]) && (forall|
            k: int,
        |
            0 <= k < s.len() - 1 ==> !(#[trigger] s[k] == '\n' && s[k + 1] == '\n')),
    }
}

/// An item whose serialized block parses back to the same item.
pub open spec fn round_trip_safe(m: TodoModel) -> bool {
    wf_title(m.title) && wf_description(m.description)
}

/// Law: the empty list serializes to the empty document, and the empty
/// document parses to the empty list.
pub proof fn lemma_empty_document()
    ensures
        spec_serialize(Seq::empty()) == Seq::<char>::empty(),
        spec_parse(Seq::empty()) == Ok::<Seq<TodoModel>, ParseError>(Seq::empty()),
{
    assert(Seq::<TodoModel>::empty().map_values(|m: TodoModel| spec_block(m))
        =~= Seq::<Seq<char>>::empty());
}

proof fn lemma_drop_blank_noop(lines: Seq<Seq<char>>)
    requires
        forall|i: int| 0 <= i < lines.len() ==> #[trigger] lines[i].len() > 0,
    ensures
        drop_blank_lines(lines) == lines,
    decreases lines.len(),
{
    if lines.len() == 0 {
        assert(drop_blank_lines(lines) =~= lines);
    } else {
        lemma_drop_blank_noop(lines.skip(1));
        assert(seq![lines[0]] + lines.skip(1) =~= lines);
    }
}

/// Law: the header parse accepts a well-formed header line, reads `X`
/// and only `X` as done, and honours only the first closing bracket:
/// whatever the marker holds, the title comes back verbatim.
pub proof fn lemma_parse_header_of(marker: Seq<char>, title: Seq<char>)
    requires
        forall|k: int| 0 <= k < marker.len() ==> marker[k] != ']',
        wf_title(title),
    ensures
        parse_header(seq!['#', ' ', '['] + marker + seq![']', ' '] + title) == Some(
            (marker == seq!['X'], title),
        ),
{
    let line = seq!['#', ' ', '['] + marker + seq![']', ' '] + title;
    let ml = marker.len() as int;
    assert(line.len() == 5 + ml + title.len());
    assert(line[0] == '#');
    assert(line[1] == ' ');
    assert(line[2] == '[');
    assert(forall|k: int| 0 <= k < ml ==> line[3 + k] == marker[k]);
    assert(line[3 + ml] == ']');
    assert(line[4 + ml] == ' ');
    assert(line[5 + ml] == title[0]);
    // after `#`, the one space is skipped and the bracket stops the scan
    assert(skip_spaces(line, 2) == 2);
    assert(skip_spaces(line, 1) == 2);
    // the first closing bracket is the one after the marker
    let sepb = seq![']'];
    assert(line.subrange(3 + ml, 4 + ml) =~= sepb);
    assert(occurs_at(line, sepb, 3 + ml));
    assert forall|k: int| 3 <= k < 3 + ml implies !occurs_at(line, sepb, k) by {
        if occurs_at(line, sepb, k) {
            assert(line.subrange(k, k + 1)[0] == line[k]);
            assert(line[k] == ']');
            assert(line[3 + (k - 3)] == marker[k - 3]);
        }
    }
    lemma_find_from(line, sepb, 3);
    let j = 3 + ml;
    match find_from(line, sepb, 3) {
        None => {
            assert(false);
        },
        Some(j2) => {
            if j2 < j {
                assert(line.subrange(j2, j2 + 1)[0] == line[j2]);
                assert(false);
            }
            if j2 > j {
                assert(false);
            }
        },
    }
    // after the bracket, the one space is skipped up to the title
    assert(!is_space(line[5 + ml]));
    assert(skip_spaces(line, 5 + ml) == 5 + ml);
    assert(skip_spaces(line, 4 + ml) == 5 + ml);
    assert(line.subrange(3, j) =~= marker);
    assert(line.subrange(5 + ml, line.len() as int) =~= title);
}

proof fn lemma_header_no_newline(done: bool, title: Seq<char>)
    requires
        wf_title(title),
    ensures
        forall|k: int|
            0 <= k < header_of(done, title).len() ==> #[trigger] header_of(done, title)[k]
                != '\n',
{
    let hdr = header_of(done, title);
    assert forall|k: int| 0 <= k < hdr.len() implies #[trigger] hdr[k] != '\n' by {
        if k >= 6 {
            assert(hdr[k] == title[k - 6]);
        }
    }
}

/// Law: one item's block parses back to that item, with the id forgotten.
pub proof fn lemma_parse_of_block(m: TodoModel)
    requires
        round_trip_safe(m),
    ensures
        parse_block(spec_block(m)) == Ok::<TodoModel, ParseError>(strip_id(m)),
{
    let hdr = header_of(m.done, m.title);
    let d = desc_text(m.description);
    let block = spec_block(m);
    let nl1 = nl();
    lemma_header_no_newline(m.done, m.title);
    assert(hdr.len() > 0);
    lemma_single_char_sep_free(hdr, nl1);
    // the header line and the marker
    let mk = seq![marker_char(m.done)];
    assert(hdr =~= seq!['#', ' ', '['] + mk + seq![']', ' '] + m.title);
    lemma_parse_header_of(mk, m.title);
    assert((mk == seq!['X']) == m.done) by {
        if m.done {
            assert(mk =~= seq!['X']);
        } else {
            if mk == seq!['X'] {
                assert(mk[0] == 'X');
            }
        }
    }
    if d.len() == 0 {
        assert(m.description is None);
        let pieces = seq![hdr, Seq::<char>::empty()];
        assert(pieces.skip(1) =~= seq![Seq::<char>::empty()]);
        assert(join_with(seq![Seq::<char>::empty()], nl1) == Seq::<char>::empty());
        assert(join_with(pieces, nl1) == hdr + nl1 + Seq::<char>::empty());
        assert(block =~= join_with(pieces, nl1));
        lemma_single_char_sep_free(Seq::empty(), nl1);
        assert(forall|i: int| 0 <= i < pieces.len() ==> sep_free(#[trigger] pieces[i], nl1));
        lemma_split_of_join(pieces, nl1);
        assert(split_on(block, nl1) == pieces);
        let e: Seq<Seq<char>> = Seq::empty();
        assert(drop_blank_lines(e) == e);
        assert(seq![Seq::<char>::empty()].skip(1) =~= e);
        assert(drop_blank_lines(seq![Seq::<char>::empty()]) == e);
        assert(drop_blank_lines(pieces) =~= seq![hdr]);
        let lines = drop_blank_lines(split_on(block, nl1));
        assert(lines == seq![hdr]);
        assert(lines.skip(1) =~= e);
        assert(join_with(lines.skip(1), nl1) == Seq::<char>::empty());
        lemma_trim_noop(Seq::empty());
        assert(parse_block(block) == Ok::<TodoModel, ParseError>(strip_id(m)));
    } else {
        assert(m.description == Some(d));
        assert(d[0] != '\n');
        assert(d[d.len() - 1] != '\n');
        let dpieces = split_on(d, nl1);
        lemma_join_of_split(d, nl1);
        lemma_split_on_len(d, nl1);
        let pieces = seq![hdr] + dpieces;
        assert(pieces.skip(1) =~= dpieces);
        assert(pieces.len() >= 2);
        assert(join_with(pieces, nl1) == hdr + nl1 + d);
        assert(block =~= join_with(pieces, nl1));
        lemma_split_pieces_no_sep(d, nl1);
        assert forall|i: int| 0 <= i < pieces.len() implies sep_free(
            #[trigger] pieces[i],
            nl1,
        ) by {
            if i >= 1 {
                assert(pieces[i] == dpieces[i - 1]);
                assert(forall|k: int|
                    0 <= k < dpieces[i - 1].len() ==> #[trigger] dpieces[i - 1][k]
                        != nl1[0]);
                lemma_single_char_sep_free(dpieces[i - 1], nl1);
            }
        }
        lemma_split_of_join(pieces, nl1);
        assert(split_on(block, nl1) == pieces);
        lemma_split_no_blank_pieces(d, nl1);
        assert forall|i: int| 0 <= i < pieces.len() implies #[trigger] pieces[i].len()
            > 0 by {
            if i >= 1 {
                assert(pieces[i] == dpieces[i - 1]);
            }
        }
        lemma_drop_blank_noop(pieces);
        let lines = drop_blank_lines(split_on(block, nl1));
        assert(lines == pieces);
        assert(lines.skip(1) =~= dpieces);
        assert(join_with(lines.skip(1), nl1) == d);
        lemma_trim_noop(d);
        assert(parse_block(block) == Ok::<TodoModel, ParseError>(strip_id(m)));
    }
}

/// No divider occurrence can begin inside a well-formed item's block.
proof fn lemma_block_sep_free(m: TodoModel)
    requires
        round_trip_safe(m),
    ensures
        sep_free(spec_block(m), spec_divider()),
{
    let block = spec_block(m);
    let div = spec_divider();
    let hdr = header_of(m.done, m.title);
    let d = desc_text(m.description);
    lemma_header_no_newline(m.done, m.title);
    // no two adjacent newlines anywhere in the block
    assert forall|k: int|
        0 <= k < block.len() - 1 implies !(#[trigger] block[k] == '\n' && block[k + 1]
        == '\n') by {
        if k < hdr.len() {
            assert(block[k] == hdr[k]);
        } else if k == hdr.len() {
            assert(block[k + 1] == d[0]);
            assert(!is_space(d[0]));
        } else {
            assert(block[k] == d[k - hdr.len() - 1]);
            assert(block[k + 1] == d[k - hdr.len()]);
        }
    }
    let bd = block + div;
    assert forall|k: int| 0 <= k < block.len() implies !occurs_at(bd, div, k) by {
        if occurs_at(bd, div, k) {
            let w = bd.subrange(k, k + div.len() as int);
            assert(w == div);
            assert(w[0] == bd[k]);
            assert(w[1] == bd[k + 1]);
            assert(w[2] == bd[k + 2]);
            assert(bd[k] == '\n');
            assert(bd[k + 1] == '\n');
            assert(bd[k + 2] == '<');
            if k + 1 < block.len() {
                assert(block[k] == '\n' && block[k + 1] == '\n');
            } else {
                assert(k == block.len() - 1);
                assert(bd[k + 2] == div[1]);
            }
        }
    }
}

proof fn lemma_parse_blocks_all(blocks: Seq<Seq<char>>, models: Seq<TodoModel>)
    requires
        blocks.len() == models.len(),
        forall|i: int|
            0 <= i < blocks.len() ==> parse_block(#[trigger] blocks[i]) == Ok::<
                TodoModel,
                ParseError,
            >(models[i]),
    ensures
        parse_blocks(blocks) == Ok::<Seq<TodoModel>, ParseError>(models),
    decreases blocks.len(),
{
    if blocks.len() == 0 {
        assert(models =~= Seq::<TodoModel>::empty());
    } else {
        assert(forall|i: int|
            0 <= i < blocks.skip(1).len() ==> blocks.skip(1)[i] == blocks[i + 1]);
        lemma_parse_blocks_all(blocks.skip(1), models.skip(1));
        assert(seq![models[0]] + models.skip(1) =~= models);
    }
}

proof fn lemma_parse_blocks_err(blocks: Seq<Seq<char>>, k: int)
    requires
        0 <= k < blocks.len(),
        parse_block(blocks[k]) == Err::<TodoModel, ParseError>(ParseError::MalformedHeader),
        forall|j: int| 0 <= j < k ==> parse_block(#[trigger] blocks[j]) is Ok,
    ensures
        parse_blocks(blocks) == Err::<Seq<TodoModel>, ParseError>(
            ParseError::MalformedHeader,
        ),
    decreases blocks.len(),
{
    if k == 0 {
    } else {
        assert(forall|i: int|
            0 <= i < blocks.skip(1).len() ==> blocks.skip(1)[i] == blocks[i + 1]);
        lemma_parse_blocks_err(blocks.skip(1), k - 1);
    }
}

/// Law: parsing a serialized list of round-trip-safe items gives back the
/// same items — same titles, descriptions and completion flags — with
/// the ids forgotten, since documents do not carry them.
pub proof fn lemma_round_trip(items: Seq<TodoModel>)
    requires
        forall|i: int| 0 <= i < items.len() ==> round_trip_safe(#[trigger] items[i]),
    ensures
        spec_parse(spec_serialize(items)) == Ok::<Seq<TodoModel>, ParseError>(
            items.map_values(|m: TodoModel| strip_id(m)),
        ),
{
    let blocks = items.map_values(|m: TodoModel| spec_block(m));
    let models = items.map_values(|m: TodoModel| strip_id(m));
    let div = spec_divider();
    if items.len() == 0 {
        lemma_empty_document();
        assert(blocks =~= Seq::<Seq<char>>::empty());
        assert(models =~= Seq::<TodoModel>::empty());
    } else {
        let doc = join_with(blocks, div);
        assert(blocks[0] == spec_block(items[0]));
        assert(spec_block(items[0]).len() > 0);
        if blocks.len() == 1 {
            assert(doc == blocks[0]);
        } else {
            assert(doc == blocks[0] + div + join_with(blocks.skip(1), div));
        }
        assert(doc.len() > 0);
        assert forall|i: int| 0 <= i < blocks.len() implies sep_free(
            #[trigger] blocks[i],
            div,
        ) by {
            assert(blocks[i] == spec_block(items[i]));
            lemma_block_sep_free(items[i]);
        }
        lemma_split_of_join(blocks, div);
        assert forall|i: int| 0 <= i < blocks.len() implies parse_block(
            #[trigger] blocks[i],
        ) == Ok::<TodoModel, ParseError>(models[i]) by {
            lemma_parse_of_block(items[i]);
        }
        lemma_parse_blocks_all(blocks, models);
    }
}

proof fn lemma_parse_blocks_count(blocks: Seq<Seq<char>>)
    ensures
        parse_blocks(blocks) matches Ok(ms) ==> ms.len() == blocks.len(),
    decreases blocks.len(),
{
    if blocks.len() > 0 {
        lemma_parse_blocks_count(blocks.skip(1));
    }
}

/// A document of n characters parses to at most n + 1 items.
pub proof fn lemma_parse_count(doc: Seq<char>)
    ensures
        spec_parse(doc) matches Ok(ms) ==> ms.len() <= doc.len() + 1,
{
    if doc.len() > 0 {
        lemma_parse_blocks_count(split_on(doc, spec_divider()));
        crate::text::lemma_split_on_count(doc, spec_divider());
    }
}

/// Law: completion marker fidelity. A done item carries `X` inside the
/// brackets of its block and an item left undone a space; and a header
/// whose bracketed marker is anything other than exactly `X` parses to
/// an item that is not done, its title kept verbatim.
pub proof fn lemma_marker_fidelity(m: TodoModel, marker: Seq<char>, title: Seq<char>)
    requires
        wf_title(title),
        forall|k: int| 0 <= k < marker.len() ==> marker[k] != ']',
        marker != seq!['X'],
    ensures
        spec_block(m)[3] == marker_char(m.done),
        m.done <==> spec_block(m)[3] == 'X',
        parse_header(seq!['#', ' ', '['] + marker + seq![']', ' '] + title) == Some(
            (false, title),
        ),
{
    assert(spec_block(m)[3] == header_of(m.done, m.title)[3]);
    lemma_parse_header_of(marker, title);
}

/// Law: description normalization. An item with an empty description
/// serializes to the very same block as one with no description, and
/// that block parses back to an item with no description.
pub proof fn lemma_description_normalization(id: Option<int>, title: Seq<char>, done: bool)
    ensures
        ({
            let with_empty = (TodoModel {
                id,
                title,
                description: Some(Seq::<char>::empty()),
                done,
            });
            let with_none = (TodoModel { id, title, description: None, done });
            spec_block(with_empty) == spec_block(with_none) && (wf_title(title)
                ==> parse_block(spec_block(with_empty)) == Ok::<TodoModel, ParseError>(
                strip_id(with_none),
            ))
        }),
{
    let with_empty = TodoModel { id, title, description: Some(Seq::<char>::empty()), done };
    let with_none = TodoModel { id, title, description: None, done };
    assert(spec_block(with_empty) =~= spec_block(with_none));
    if wf_title(title) {
        lemma_parse_of_block(with_none);
    }
}

/// The divider as a string slice.
pub fn divider_str() -> (r: &'static str)
    ensures
        r@ == spec_divider(),
{
    let d = "\n\n<!---->\n\n";
    proof {
        reveal_strlit("\n\n<!---->\n\n");
        assert(d@ =~= spec_divider());
    }
    d
}

/// The divider as a character vector.
pub fn divider_chars() -> (r: Vec<char>)
    ensures
        r@ == spec_divider(),
{
    chars_of_str(divider_str())
}

/// Serializes the items to one document: their blocks in order, joined
/// by the divider, with no trailing divider; no items give the empty
/// document.
pub fn serialize(todos: &Vec<Todo>) -> (r: String)
    ensures
        r@ == spec_serialize(todos@.map_values(|t: Todo| t@)),
{
    let ghost models = todos@.map_values(|t: Todo| t@);
    let ghost blocks = models.map_values(|m: TodoModel| spec_block(m));
    let div = divider_str();
    let mut r = String::new();
    let n = todos.len();
    let mut i: usize = 0;
    proof {
        assert(join_with(blocks.take(0), spec_divider()) =~= Seq::<char>::empty());
    }
    while i < n
        invariant
            n == todos@.len(),
            i <= n,
            models == todos@.map_values(|t: Todo| t@),
            blocks == models.map_values(|m: TodoModel| spec_block(m)),
            div@ == spec_divider(),
            r@ == join_with(blocks.take(i as int), spec_divider()),
        decreases n - i,
    {
        if i > 0 {
            r.append(div);
        }
        let b = todos[i].to_md();
        r.append(b.as_str());
        proof {
            assert(blocks[i as int] == spec_block(models[i as int]));
            assert(models[i as int] == todos@[i as int]@);
            if i == 0 {
                assert(blocks.take(1)[0] == blocks[0]);
                assert(join_with(blocks.take(1), spec_divider()) == blocks[0]);
                assert(r@ =~= blocks[0]);
            } else {
                lemma_join_take_snoc(blocks, spec_divider(), i as int);
            }
        }
        i = i + 1;
    }
    proof {
        assert(blocks.take(n as int) =~= blocks);
    }
    r
}

fn parse_header_exec(line: &Vec<char>) -> (r: Option<(bool, Vec<char>)>)
    ensures
        match r {
            Some(p) => parse_header(line@) == Some((p.0, p.1@)),
            None => parse_header(line@) is None,
        },
{
    let n = line.len();
    if n == 0 || line[0] != '#' {
        return None;
    }
    let mut i: usize = 1;
    while i < n && is_space_char(line[i])
        invariant
            1 <= i <= n,
            n == line@.len(),
            skip_spaces(line@, 1) == skip_spaces(line@, i as int),
        decreases n - i,
    {
        i = i + 1;
    }
    proof {
        assert(skip_spaces(line@, i as int) == i);
    }
    if i >= n || line[i] != '[' {
        return None;
    }
    let mut bracket: Vec<char> = Vec::new();
    bracket.push(']');
    proof {
        assert(bracket@ =~= seq![']']);
    }
    match find_pattern(line, &bracket, i + 1) {
        None => None,
        Some(j) => {
            let marker_is_x = j == i + 2 && line[i + 1] == 'X';
            proof {
                let mk = line@.subrange(i + 1, j as int);
                if j == i + 2 && line@[i + 1] == 'X' {
                    assert(mk =~= seq!['X']);
                }
                if mk == seq!['X'] {
                    assert(mk.len() == 1);
                    assert(mk[0] == line@[i + 1]);
                }
            }
            let mut k: usize = j + 1;
            while k < n && is_space_char(line[k])
                invariant
                    j + 1 <= k <= n,
                    n == line@.len(),
                    skip_spaces(line@, j + 1) == skip_spaces(line@, k as int),
                decreases n - k,
            {
                k = k + 1;
            }
            proof {
                assert(skip_spaces(line@, k as int) == k);
            }
            let title = subrange_chars(line, k, n);
            Some((marker_is_x, title))
        },
    }
}

fn parse_block_exec(block: &Vec<char>) -> (r: Result<Todo, ParseError>)
    ensures
        match r {
            Ok(t) => parse_block(block@) == Ok::<TodoModel, ParseError>(t@),
            Err(e) => parse_block(block@) == Err::<TodoModel, ParseError>(e),
        },
{
    let mut nlv: Vec<char> = Vec::new();
    nlv.push('\n');
    proof {
        assert(nlv@ =~= nl());
    }
    let lines = split_chars(block, &nlv);
    let ghost lm = lines@.map_values(|p: Vec<char>| p@);
    // drop the blank lines
    let mut kept: Vec<Vec<char>> = Vec::new();
    let mut idx: usize = 0;
    proof {
        assert(lm.skip(0) =~= lm);
        assert(kept@.map_values(|p: Vec<char>| p@) + drop_blank_lines(lm)
            =~= drop_blank_lines(lm));
    }
    while idx < lines.len()
        invariant
            idx <= lines@.len(),
            lm == lines@.map_values(|p: Vec<char>| p@),
            drop_blank_lines(lm) == kept@.map_values(|p: Vec<char>| p@)
                + drop_blank_lines(lm.skip(idx as int)),
        decreases lines@.len() - idx,
    {
        let ghost pre = kept@.map_values(|p: Vec<char>| p@);
        let ghost tail = lm.skip(idx as int);
        proof {
            assert(tail[0] == lm[idx as int]);
            assert(tail.skip(1) =~= lm.skip(idx + 1));
        }
        let ll = lines[idx].len();
        if ll > 0 {
            let piece = subrange_chars(&lines[idx], 0, ll);
            proof {
                assert(lm[idx as int].subrange(0, lm[idx as int].len() as int)
                    =~= lm[idx as int]);
            }
            kept.push(piece);
            proof {
                assert(kept@.map_values(|p: Vec<char>| p@) =~= pre + seq![lm[idx as int]]);
                assert(drop_blank_lines(tail) == seq![lm[idx as int]] + drop_blank_lines(
                    lm.skip(idx + 1),
                ));
                assert(pre + (seq![lm[idx as int]] + drop_blank_lines(lm.skip(idx + 1)))
                    =~= (pre + seq![lm[idx as int]]) + drop_blank_lines(lm.skip(idx + 1)));
            }
        } else {
            proof {
                assert(drop_blank_lines(tail) == drop_blank_lines(lm.skip(idx + 1)));
            }
        }
        idx = idx + 1;
    }
    proof {
        assert(lm.skip(lm.len() as int) =~= Seq::<Seq<char>>::empty());
        assert(drop_blank_lines(Seq::<Seq<char>>::empty()) == Seq::<Seq<char>>::empty());
        assert(kept@.map_values(|p: Vec<char>| p@) + Seq::<Seq<char>>::empty()
            =~= kept@.map_values(|p: Vec<char>| p@));
    }
    let ghost km = kept@.map_values(|p: Vec<char>| p@);
    proof {
        assert(km == drop_blank_lines(split_on(block@, nl())));
    }
    if kept.len() == 0 {
        return Err(ParseError::MalformedHeader);
    }
    match parse_header_exec(&kept[0]) {
        None => Err(ParseError::MalformedHeader),
        Some((done, title_chars)) => {
            // join the remaining lines back together
            let mut desc: Vec<char> = Vec::new();
            let kn = kept.len();
            let mut t: usize = 1;
            proof {
                assert(join_with(km.skip(1).take(0), nl()) =~= Seq::<char>::empty());
            }
            while t < kn
                invariant
                    1 <= t <= kn,
                    kn == kept@.len(),
                    km == kept@.map_values(|p: Vec<char>| p@),
                    desc@ == join_with(km.skip(1).take(t - 1), nl()),
                decreases kn - t,
            {
                if t > 1 {
                    desc.push('\n');
                }
                append_chars(&mut desc, &kept[t]);
                proof {
                    let rest = km.skip(1);
                    assert(rest[t - 1] == km[t as int]);
                    if t == 1 {
                        assert(rest.take(1)[0] == rest[0]);
                        assert(join_with(rest.take(1), nl()) == rest[0]);
                        assert(desc@ =~= rest[0]);
                    } else {
                        lemma_join_take_snoc(rest, nl(), t - 1);
                        assert(desc@ =~= join_with(rest.take(t - 1), nl()) + nl() + rest[
                            t - 1
                        ]);
                    }
                }
                t = t + 1;
            }
            proof {
                assert(km.skip(1).take(kn - 1) =~= km.skip(1));
            }
            // trim the joined description
            let dl = desc.len();
            let mut lo: usize = 0;
            while lo < dl && is_space_char(desc[lo])
                invariant
                    lo <= dl,
                    dl == desc@.len(),
                    forall|k: int| 0 <= k < lo ==> is_space(desc@[k]),
                decreases dl - lo,
            {
                lo = lo + 1;
            }
            let mut hi: usize = dl;
            while hi > lo && is_space_char(desc[hi - 1])
                invariant
                    lo <= hi <= dl,
                    dl == desc@.len(),
                    forall|k: int| hi <= k < dl ==> is_space(desc@[k]),
                decreases hi,
            {
                hi = hi - 1;
            }
            proof {
                lemma_trim_left_at(desc@, lo as int);
                let sk = desc@.skip(lo as int);
                assert(forall|k: int| hi - lo <= k < sk.len() ==> is_space(#[trigger] sk[k]));
                if hi > lo {
                    assert(sk[hi - lo - 1] == desc@[hi - 1]);
                }
                lemma_trim_right_at(sk, hi - lo);
                assert(sk.take(hi - lo) =~= desc@.subrange(lo as int, hi as int));
            }
            let trimmed = subrange_chars(&desc, lo, hi);
            let tl = trimmed.len();
            let item = Todo {
                id: None,
                title: string_of_chars(&title_chars),
                description: if tl == 0 {
                    None
                } else {
                    Some(string_of_chars(&trimmed))
                },
                done,
            };
            Ok(item)
        },
    }
}

/// Parses a whole document: the empty document is the empty list; any
/// block whose first non-blank line is not a valid header fails the
/// whole parse, and nothing is returned.
pub fn parse(document: &str) -> (r: Result<Vec<Todo>, ParseError>)
    ensures
        match r {
            Ok(v) => spec_parse(document@) == Ok::<Seq<TodoModel>, ParseError>(
                v@.map_values(|t: Todo| t@),
            ),
            Err(e) => spec_parse(document@) == Err::<Seq<TodoModel>, ParseError>(e),
        },
{
    let chars = chars_of_str(document);
    if chars.len() == 0 {
        let v: Vec<Todo> = Vec::new();
        proof {
            assert(v@.map_values(|t: Todo| t@) =~= Seq::<TodoModel>::empty());
        }
        return Ok(v);
    }
    let div = divider_chars();
    let blocks = split_chars(&chars, &div);
    let ghost bm = blocks@.map_values(|p: Vec<char>| p@);
    let mut out: Vec<Todo> = Vec::new();
    let bn = blocks.len();
    let mut i: usize = 0;
    while i < bn
        invariant
            i <= bn,
            bn == blocks@.len(),
            bm == blocks@.map_values(|p: Vec<char>| p@),
            bm == split_on(document@, spec_divider()),
            document@.len() > 0,
            out@.len() == i,
            forall|j: int|
                0 <= j < i ==> parse_block(#[trigger] bm[j]) == Ok::<TodoModel, ParseError>(
                    out@[j]@,
                ),
        decreases bn - i,
    {
        match parse_block_exec(&blocks[i]) {
            Err(e) => {
                proof {
                    assert(e == ParseError::MalformedHeader);
                    lemma_parse_blocks_err(bm, i as int);
                }
                return Err(e);
            },
            Ok(item) => {
                out.push(item);
            },
        }
        i = i + 1;
    }
    proof {
        let models = out@.map_values(|t: Todo| t@);
        assert(forall|j: int| 0 <= j < bm.len() ==> parse_block(#[trigger] bm[j]) == Ok::<
            TodoModel,
            ParseError,
        >(models[j]));
        lemma_parse_blocks_all(bm, models);
    }
    Ok(out)
}

/// One edit session's document: the scratch-file path it belongs to and
/// the items it currently holds. Reading and writing that path, and
/// running the editor, are the caller's side of the bargain.
pub struct TodoMarkdown {
    pub filepath: String,
    pub todos: Vec<Todo>,
}

impl TodoMarkdown {
    /// Opens a session for the given items under the fixed scratch
    /// directory; the caller writes `document()` to `filepath`.
    pub fn save(filename: &str, todos: &Vec<Todo>) -> (r: TodoMarkdown)
        ensures
            r.filepath@ == "/tmp/"@ + filename@,
            r.todos@.map_values(|t: Todo| t@) == todos@.map_values(|t: Todo| t@),
    {
        let mut filepath = String::new();
        filepath.append("/tmp/");
        filepath.append(filename);
        let mut copy: Vec<Todo> = Vec::new();
        let n = todos.len();
        let mut i: usize = 0;
        while i < n
            invariant
                i <= n,
                n == todos@.len(),
                copy@.len() == i,
                forall|j: int| 0 <= j < i ==> #[trigger] copy@[j]@ == todos@[j]@,
            decreases n - i,
        {
            copy.push(todos[i].duplicate());
            i = i + 1;
        }
        proof {
            assert(copy@.map_values(|t: Todo| t@) =~= todos@.map_values(|t: Todo| t@));
        }
        TodoMarkdown { filepath, todos: copy }
    }

    /// The serialized document for this session's items.
    pub fn document(&self) -> (r: String)
        ensures
            r@ == spec_serialize(self.todos@.map_values(|t: Todo| t@)),
    {
        serialize(&self.todos)
    }

    /// Replaces the session's items with the parse of the edited
    /// document. A malformed document changes nothing: the session, and
    /// with it the user's edits on disk, survive untouched.
    pub fn save_edit(&mut self, document: &str) -> (r: Result<(), ParseError>)
        ensures
            final(self).filepath == old(self).filepath,
            match r {
                Ok(()) => spec_parse(document@) == Ok::<Seq<TodoModel>, ParseError>(
                    final(self).todos@.map_values(|t: Todo| t@),
                ),
                Err(e) => spec_parse(document@) == Err::<Seq<TodoModel>, ParseError>(e)
                    && *final(self) == *old(self),
            },
    {
        match parse(document) {
            Ok(v) => {
                self.todos = v;
                Ok(())
            },
            Err(e) => Err(e),
        }
    }
}

} // verus!
