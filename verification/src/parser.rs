//! Reading an outline from text.
//!
//! A line that begins with `#` starts a node: the number of `#` is the node's
//! depth, the text after them its label. Any other line continues the label of
//! the node before it. Lines are taken without the white space around them,
//! and empty lines are skipped.

use vstd::prelude::*;
use crate::text::byte_len;
use crate::text::char_rows;
use crate::text::chars_of;
use crate::text::joined;
use crate::text::lemma_byte_len_concat;
use crate::text::lemma_byte_len_subrange;
use crate::text::lemma_join_split;
use crate::text::lemma_joined_prefix;
use crate::text::lemma_piece_bytes;
use crate::text::lemma_trimmed_bytes;
use crate::text::split;
use crate::text::split_on;
use crate::text::string_of;
use crate::text::trim;
use crate::text::trimmed;
use crate::text::utf8_len;
use crate::tree::tree_node::lemma_outline_of;
use crate::tree::tree_node::Outline;
use crate::tree::tree_node::outlines;
use crate::tree::tree_node::TreeNode;

verus! {

/// The text and the width in bytes of its last line once the first `count`
/// of `words` are placed. A word goes on the line of the word before it,
/// after a space, unless the line has something on it already and would with
/// the word be `width` bytes long or longer: then the word begins a new line.
pub open spec fn wrapped(words: Seq<Seq<char>>, width: nat, count: nat) -> (Seq<char>, nat)
    decreases count,
{
    if count == 0 {
        (Seq::empty(), 0nat)
    } else {
        let (text, line_width) = wrapped(words, width, (count - 1) as nat);
        let word = words[count - 1];
        let next_width = if line_width > 0 {
            line_width + byte_len(word) + 1
        } else {
            byte_len(word)
        };
        if next_width >= width && line_width > 0 {
            (text.push('\n') + word, byte_len(word))
        } else if count == 1 {
            (word, next_width)
        } else {
            (text.push(' ') + word, next_width)
        }
    }
}

/// `line` with some of its spaces made line feeds, so that lines stay under
/// `width` bytes where words allow; `line` itself if there is no width.
pub open spec fn wrap(line: Seq<char>, width: Option<usize>) -> Seq<char> {
    match width {
        Some(w) => {
            let words = split_on(line, ' ');
            wrapped(words, w as nat, words.len()).0
        },
        None => line,
    }
}

/// A word more, joined on with a space, takes the bytes of the word and one
/// for the space.
proof fn lemma_joined_word(words: Seq<Seq<char>>, count: int)
    requires
        1 <= count < words.len(),
    ensures
        byte_len(joined(words.take(count + 1), ' ')) == byte_len(joined(words.take(count), ' '))
            + 1 + byte_len(words[count]),
{
    let front = words.take(count + 1);
    let head = joined(words.take(count), ' ');
    assert(front.drop_last() =~= words.take(count));
    lemma_byte_len_concat(head.push(' '), front.last());
    lemma_byte_len_concat(head, seq![' ']);
    assert(head.push(' ') =~= head + seq![' ']);
    assert(byte_len(seq![' ']) == 1) by {
        assert(seq![' '].drop_last() =~= Seq::<char>::empty());
        reveal_with_fuel(byte_len, 2);
    }
}

/// The width of the last line is that of some of the words placed, with the
/// spaces between them.
proof fn lemma_wrapped_width(words: Seq<Seq<char>>, width: nat, count: nat)
    requires
        count <= words.len(),
    ensures
        wrapped(words, width, count).1 <= byte_len(joined(words.take(count as int), ' ')),
    decreases count,
{
    if count > 0 {
        let before = (count - 1) as nat;
        lemma_wrapped_width(words, width, before);
        let front = words.take(count as int);
        assert(front.drop_last() =~= words.take(before as int));
        assert(front.last() == words[count - 1]);
        if count > 1 {
            lemma_joined_word(words, count - 1);
        }
    }
}

/// Adds the characters of `more` to the end of `chars`.
fn append_chars(chars: &mut Vec<char>, more: &Vec<char>)
    ensures
        final(chars)@ == old(chars)@ + more@,
{
    let ghost begun = chars@;
    let mut i: usize = 0;
    while i < more.len()
        invariant
            i <= more.len(),
            chars@ == begun + more@.take(i as int),
        decreases more.len() - i,
    {
        chars.push(more[i]);
        proof {
            assert(begun + more@.take(i + 1) =~= (begun + more@.take(i as int)).push(more@[i as int]));
        }
        i += 1;
    }
    proof {
        assert(more@.take(i as int) =~= more@);
    }
}

/// `words` placed on lines under `width` bytes where the words allow.
fn wrap_words(words: &Vec<Vec<char>>, width: usize) -> (text: Vec<char>)
    requires
        byte_len(joined(char_rows(words@), ' ')) <= usize::MAX,
    ensures
        text@ == wrapped(char_rows(words@), width as nat, words.len() as nat).0,
{
    let ghost rows = char_rows(words@);
    let mut text: Vec<char> = Vec::new();
    let mut current_width: usize = 0;
    let mut i: usize = 0;
    while i < words.len()
        invariant
            i <= words.len(),
            rows == char_rows(words@),
            byte_len(joined(rows, ' ')) <= usize::MAX,
            (text@, current_width as nat) == wrapped(rows, width as nat, i as nat),
        decreases words.len() - i,
    {
        let word = &words[i];
        proof {
            lemma_wrapped_width(rows, width as nat, i as nat);
            lemma_joined_prefix(rows, ' ', i + 1);
            assert(rows[i as int] == word@);
            if i > 0 {
                lemma_joined_word(rows, i as int);
            } else {
                assert(rows.take(1).drop_last() =~= Seq::<Seq<char>>::empty());
                assert(joined(rows.take(1), ' ') == rows[0]);
            }
        }
        let word_width = match utf8_len(word) {
            Some(len) => len,
            None => vstd::pervasive::unreached(),
        };
        let next_width = if current_width > 0 {
            current_width + word_width + 1
        } else {
            word_width
        };
        if next_width >= width && current_width > 0 {
            text.push('\n');
            current_width = word_width;
        } else {
            if i > 0 {
                text.push(' ');
            }
            current_width = next_width;
        }
        append_chars(&mut text, word);
        i += 1;
    }
    text
}

/// `chars` wrapped to `width`.
fn wrap_chars(chars: Vec<char>, width: Option<usize>) -> (text: Vec<char>)
    requires
        byte_len(chars@) <= usize::MAX,
    ensures
        text@ == wrap(chars@, width),
{
    match width {
        Some(w) => {
            let words = split(&chars, ' ');
            proof {
                lemma_join_split(chars@, ' ');
            }
            wrap_words(&words, w)
        },
        None => chars,
    }
}

/// `line` with some of its spaces made line feeds, so that lines stay under
/// `width` bytes where words allow; `line` itself if there is no width.
pub fn wrap_line(line: &str, width: Option<usize>) -> (text: String)
    ensures
        text@ == wrap(line@, width),
{
    let chars = chars_of(line);
    string_of(&wrap_chars(chars, width))
}

/// Whether `c` is the character that marks a node's depth.
pub open spec fn is_marker(c: char) -> bool {
    c == '#'
}

/// Whether `c` is the character that marks a node's depth.
pub fn is_marker_char(c: char) -> (marker: bool)
    ensures
        marker == is_marker(c),
{
    c == '#'
}

/// Where the run of characters that begins at `from` ends: the first index
/// after `from` at which markers give way to other characters, or other
/// characters to markers, or the text ends.
pub open spec fn run_end(text: Seq<char>, from: int) -> int
    decreases text.len() - from,
{
    if 0 <= from && from + 1 < text.len() && is_marker(text[from + 1]) == is_marker(text[from]) {
        run_end(text, from + 1)
    } else {
        from + 1
    }
}

/// Whether `runs` are the runs of `text`: they make up `text`, none is empty,
/// each is of markers only or of other characters only, and neighbours are
/// not of the same kind.
pub open spec fn is_run_split(text: Seq<char>, runs: Seq<Seq<char>>) -> bool {
    &&& runs.flatten() == text
    &&& forall|i: int| 0 <= i < runs.len() ==> (#[trigger] runs[i]).len() > 0
    &&& forall|i: int, j: int|
        0 <= i < runs.len() && 0 <= j < runs[i].len() ==> is_marker(#[trigger] runs[i][j])
            == is_marker(runs[i][0])
    &&& forall|i: int|
        0 < i < runs.len() ==> is_marker((#[trigger] runs[i])[0]) != is_marker(runs[i - 1][0])
}

/// Whether a line has a run of markers and a run of other characters, in
/// either order.
pub open spec fn has_two_runs(line: Seq<char>) -> bool {
    line.len() > 0 && run_end(line, 0) < line.len()
}

/// The depth that a line gives: the length in bytes of its first run.
pub open spec fn line_depth(line: Seq<char>) -> nat {
    byte_len(line.take(run_end(line, 0)))
}

/// The label that a line gives: its second run, without the white space
/// around it, wrapped to `width`.
pub open spec fn line_label(line: Seq<char>, width: Option<usize>) -> Seq<char> {
    let first = run_end(line, 0);
    wrap(trimmed(line.subrange(first, run_end(line, first))), width)
}

/// `group_by` of `itertools` gathers neighbouring items with equal keys
/// into groups; keyed by [`is_marker_char`], the groups are the runs of `line`.
#[verifier::external_body]
fn marker_runs(line: &Vec<char>) -> (runs: Vec<Vec<char>>)
    ensures
        is_run_split(line@, char_rows(runs@)),
{
    itertools::Itertools::group_by(line.iter(), |c| is_marker_char(**c))
        .into_iter()
        .map(|(_, run)| run.copied().collect())
        .collect()
}

/// A run ends where the kind of character changes.
proof fn lemma_run_end(text: Seq<char>, from: int, end: int)
    requires
        0 <= from < end <= text.len(),
        forall|k: int| from <= k < end ==> is_marker(#[trigger] text[k]) == is_marker(text[from]),
        end < text.len() ==> is_marker(text[end]) != is_marker(text[from]),
    ensures
        run_end(text, from) == end,
    decreases end - from,
{
    if from + 1 < end {
        assert(is_marker(text[from + 1]) == is_marker(text[from]));
        lemma_run_end(text, from + 1, end);
    }
}

/// The first of the runs of a text is the run that begins the text, and the
/// others are the runs of the rest.
proof fn lemma_first_run(text: Seq<char>, runs: Seq<Seq<char>>)
    requires
        is_run_split(text, runs),
        text.len() > 0,
    ensures
        runs.len() >= 1,
        run_end(text, 0) == runs[0].len(),
        runs[0] == text.take(run_end(text, 0)),
        is_run_split(text.skip(run_end(text, 0)), runs.drop_first()),
{
    let first = runs[0];
    let others = runs.drop_first();
    assert(text =~= first + others.flatten());
    assert forall|k: int| 0 <= k < first.len() implies is_marker(#[trigger] text[k]) == is_marker(
        text[0],
    ) by {
        assert(text[k] == runs[0][k]);
    }
    if first.len() < text.len() {
        assert(others.len() > 0);
        assert(others[0] == runs[1]);
        assert(others.flatten() =~= others[0] + others.drop_first().flatten());
        assert(text[first.len() as int] == runs[1][0]);
    }
    lemma_run_end(text, 0, first.len() as int);
    assert(text.take(first.len() as int) =~= first);
    assert(text.skip(first.len() as int) =~= others.flatten());
    assert forall|i: int| 0 <= i < others.len() implies (#[trigger] others[i]).len() > 0 by {
        assert(others[i] == runs[i + 1]);
    }
    assert forall|i: int, j: int| 0 <= i < others.len() && 0 <= j < others[i].len() implies is_marker(
        #[trigger] others[i][j],
    ) == is_marker(others[i][0]) by {
        assert(others[i][j] == runs[i + 1][j]);
    }
    assert forall|i: int| 0 < i < others.len() implies is_marker((#[trigger] others[i])[0])
        != is_marker(others[i - 1][0]) by {
        assert(others[i] == runs[i + 1]);
        assert(others[i - 1] == runs[i]);
    }
}

/// The depth and the label that the characters of a line give.
fn parse_line_chars(line: &Vec<char>, width: Option<usize>) -> (parsed: (usize, Vec<char>))
    requires
        has_two_runs(line@),
        byte_len(line@) <= usize::MAX,
    ensures
        parsed.0 == line_depth(line@),
        parsed.1@ == line_label(line@, width),
{
    let grouped_parts = marker_runs(line);
    let ghost runs = char_rows(grouped_parts@);
    proof {
        let first = run_end(line@, 0);
        lemma_first_run(line@, runs);
        lemma_first_run(line@.skip(first), runs.drop_first());
        assert(runs.drop_first()[0] == runs[1]);
        lemma_run_shifted(line@, first, run_end(line@.skip(first), 0));
        assert(line@.skip(first).take(run_end(line@.skip(first), 0)) =~= line@.subrange(
            first,
            run_end(line@, first),
        ));
        lemma_byte_len_subrange(line@, 0, first);
        lemma_byte_len_subrange(line@, first, run_end(line@, first));
        lemma_trimmed_bytes(line@.subrange(first, run_end(line@, first)));
        assert(runs[0] == grouped_parts[0]@);
        assert(runs[1] == grouped_parts[1]@);
    }
    let count_pound_signs = match utf8_len(&grouped_parts[0]) {
        Some(count) => count,
        None => vstd::pervasive::unreached(),
    };
    let label = wrap_chars(trim(&grouped_parts[1]), width);
    (count_pound_signs, label)
}

/// The run that begins at `from` is the run that begins what is left of the
/// text from `from` on.
proof fn lemma_run_shifted(text: Seq<char>, from: int, end: int)
    requires
        0 <= from < text.len(),
        end == run_end(text.skip(from), 0),
    ensures
        run_end(text, from) == from + end,
        from + end <= text.len(),
{
    lemma_run_shifted_at(text, from, 0);
}

/// The same, for a run entered at its character `at`.
proof fn lemma_run_shifted_at(text: Seq<char>, from: int, at: int)
    requires
        0 <= from,
        0 <= at,
        from + at < text.len(),
    ensures
        run_end(text, from + at) == from + run_end(text.skip(from), at),
        run_end(text, from + at) <= text.len(),
    decreases text.len() - from - at,
{
    let rest = text.skip(from);
    if at + 1 < rest.len() && is_marker(rest[at + 1]) == is_marker(rest[at]) {
        lemma_run_shifted_at(text, from, at + 1);
    }
}

/// The depth and the label that a line gives: the length of its first run of
/// characters, and its second run without the white space around it, wrapped
/// to `width`. For a line that begins with markers the depth is their number.
pub fn parse_line(line: &str, width: Option<usize>) -> (parsed: (usize, String))
    requires
        has_two_runs(line@),
    ensures
        parsed.0 == line_depth(line@),
        parsed.1@ == line_label(line@, width),
{
    let chars = chars_of(line);
    let (depth, label) = parse_line_chars(&chars, width);
    (depth, string_of(&label))
}

/// The nodes read so far at one depth, below one parent.
pub struct Layer {
    pub depth: nat,
    pub nodes: Seq<Outline>,
}

/// The stack before anything is read: at depth 0, one node to hold the roots.
pub open spec fn empty_stack() -> Seq<Layer> {
    seq![Layer { depth: 0, nodes: seq![Outline { label: Seq::empty(), children: Seq::empty() }] }]
}

/// The stack with its top layer closed: the nodes of that layer become the
/// children of the last node of the layer below, in place of any it had.
pub open spec fn close_top(stack: Seq<Layer>) -> Seq<Layer> {
    let top = stack.last();
    let below = stack[stack.len() - 2];
    let parent = below.nodes.last();
    stack.drop_last().drop_last().push(
        Layer {
            depth: below.depth,
            nodes: below.nodes.drop_last().push(
                Outline { label: parent.label, children: top.nodes },
            ),
        },
    )
}

/// The stack with every layer deeper than `depth` closed, the bottom layer excepted.
pub open spec fn close_to(stack: Seq<Layer>, depth: nat) -> Seq<Layer>
    decreases stack.len(),
{
    if stack.len() >= 2 && depth < stack.last().depth {
        close_to(close_top(stack), depth)
    } else {
        stack
    }
}

/// The stack after a new node at `depth`: the layers deeper than `depth` are
/// closed; the node joins the top layer if that is at `depth`, and otherwise
/// opens a layer of its own, whatever the difference in depth.
pub open spec fn open_node(stack: Seq<Layer>, depth: nat, label: Seq<char>) -> Seq<Layer> {
    let closed = close_to(stack, depth);
    let node = Outline { label, children: Seq::empty() };
    if depth > closed.last().depth {
        closed.push(Layer { depth, nodes: seq![node] })
    } else {
        closed.update(
            closed.len() - 1,
            Layer { depth: closed.last().depth, nodes: closed.last().nodes.push(node) },
        )
    }
}

/// The stack after a line that continues the label of the last node read:
/// the label grows by a line break, written `\` `n`, and the text.
pub open spec fn continue_label(stack: Seq<Layer>, text: Seq<char>) -> Seq<Layer> {
    let top = stack.last();
    let node = top.nodes.last();
    stack.update(
        stack.len() - 1,
        Layer {
            depth: top.depth,
            nodes: top.nodes.update(
                top.nodes.len() - 1,
                Outline { label: node.label + seq!['\\', 'n'] + text, children: node.children },
            ),
        },
    )
}

/// The stack after a line. The line counts without the white space around
/// it; if nothing is left it changes nothing. A line that begins with a marker
/// is a new node, as deep as it has markers at its beginning and labelled as
/// [`line_label`] says, or with the empty label if it has markers only. Any
/// other line continues the label of the last node.
pub open spec fn read_line(stack: Seq<Layer>, line: Seq<char>, width: Option<usize>) -> Seq<Layer> {
    let text = trimmed(line);
    if text.len() == 0 {
        stack
    } else if is_marker(text[0]) {
        open_node(
            stack,
            run_end(text, 0) as nat,
            if has_two_runs(text) {
                line_label(text, width)
            } else {
                Seq::empty()
            },
        )
    } else {
        continue_label(stack, text)
    }
}

/// The stack after the first `count` of `lines`.
pub open spec fn read_lines(lines: Seq<Seq<char>>, width: Option<usize>, count: nat) -> Seq<Layer>
    decreases count,
{
    if count == 0 {
        empty_stack()
    } else {
        read_line(read_lines(lines, width, (count - 1) as nat), lines[count - 1], width)
    }
}

/// The outline that `content` describes: the roots found once every line is
/// read and every layer closed.
pub open spec fn outline_read(content: Seq<char>, width: Option<usize>) -> Seq<Outline> {
    let lines = split_on(content, '\n');
    close_to(read_lines(lines, width, lines.len()), 0)[0].nodes[0].children
}

/// Whether a stack is one that reading lines can lead to: the bottom layer
/// is at depth 0 and holds one node, every layer has a node, and the layers
/// are the deeper the higher they lie.
pub open spec fn stack_ok(stack: Seq<Layer>) -> bool {
    &&& stack.len() >= 1
    &&& stack[0].depth == 0
    &&& stack[0].nodes.len() == 1
    &&& forall|i: int| 0 <= i < stack.len() ==> (#[trigger] stack[i]).nodes.len() >= 1
    &&& forall|i: int| 0 < i < stack.len() ==> stack[i - 1].depth < (#[trigger] stack[i]).depth
}

/// Closing the top layer leaves a stack that reading can lead to.
proof fn lemma_close_top_ok(stack: Seq<Layer>)
    requires
        stack_ok(stack),
        stack.len() >= 2,
    ensures
        stack_ok(close_top(stack)),
        close_top(stack).len() == stack.len() - 1,
        close_top(stack).last().depth == stack[stack.len() - 2].depth,
{
    let closed = close_top(stack);
    assert forall|i: int| 0 <= i < closed.len() implies (#[trigger] closed[i]).nodes.len()
        >= 1 by {
        if i < closed.len() - 1 {
            assert(closed[i] == stack[i]);
        }
    }
    assert forall|i: int| 0 < i < closed.len() implies closed[i - 1].depth < (
    #[trigger] closed[i]).depth by {
        assert(closed[i - 1].depth == stack[i - 1].depth);
        assert(closed[i].depth == stack[i].depth);
    }
}

/// Closing layers leaves a stack that reading can lead to, no deeper at its
/// top than asked for.
proof fn lemma_close_to_ok(stack: Seq<Layer>, depth: nat)
    requires
        stack_ok(stack),
    ensures
        stack_ok(close_to(stack, depth)),
        close_to(stack, depth).len() == 1 || close_to(stack, depth).last().depth <= depth,
    decreases stack.len(),
{
    if stack.len() >= 2 && depth < stack.last().depth {
        lemma_close_top_ok(stack);
        lemma_close_to_ok(close_top(stack), depth);
    }
}

/// A new node, one level down at least, leaves a stack that reading can lead to.
proof fn lemma_open_node_ok(stack: Seq<Layer>, depth: nat, label: Seq<char>)
    requires
        stack_ok(stack),
        depth >= 1,
    ensures
        stack_ok(open_node(stack, depth, label)),
{
    lemma_close_to_ok(stack, depth);
    let closed = close_to(stack, depth);
    let opened = open_node(stack, depth, label);
    if depth > closed.last().depth {
        assert forall|i: int| 0 < i < opened.len() implies opened[i - 1].depth < (
        #[trigger] opened[i]).depth by {
            if i < closed.len() {
                assert(opened[i] == closed[i]);
                assert(opened[i - 1] == closed[i - 1]);
            }
        }
    } else {
        assert(closed.len() >= 2);
        assert forall|i: int| 0 < i < opened.len() implies opened[i - 1].depth < (
        #[trigger] opened[i]).depth by {
            assert(opened[i].depth == closed[i].depth);
            assert(opened[i - 1].depth == closed[i - 1].depth);
        }
    }
}

/// A continued label leaves a stack that reading can lead to.
proof fn lemma_continue_label_ok(stack: Seq<Layer>, text: Seq<char>)
    requires
        stack_ok(stack),
    ensures
        stack_ok(continue_label(stack, text)),
{
    let continued = continue_label(stack, text);
    assert forall|i: int| 0 < i < continued.len() implies continued[i - 1].depth < (
    #[trigger] continued[i]).depth by {
        assert(continued[i].depth == stack[i].depth);
        assert(continued[i - 1].depth == stack[i - 1].depth);
    }
}

/// A run of markers takes a byte for each.
proof fn lemma_markers_bytes(text: Seq<char>)
    requires
        forall|i: int| 0 <= i < text.len() ==> is_marker(#[trigger] text[i]),
    ensures
        byte_len(text) == text.len(),
    decreases text.len(),
{
    if text.len() > 0 {
        assert(is_marker(text[text.len() - 1]));
        lemma_markers_bytes(text.drop_last());
    }
}

/// The first run of a text is all of one kind.
proof fn lemma_run_uniform(text: Seq<char>, from: int, i: int)
    requires
        0 <= from <= i < run_end(text, from),
        from < text.len(),
    ensures
        i < text.len(),
        is_marker(text[i]) == is_marker(text[from]),
    decreases text.len() - from,
{
    if from + 1 < text.len() && is_marker(text[from + 1]) == is_marker(text[from]) {
        if i > from {
            lemma_run_uniform(text, from + 1, i);
        }
    }
}

/// The nodes read so far at one depth, below one parent.
struct NodeLayer {
    depth: usize,
    nodes: Vec<TreeNode>,
}

/// The layer that `layer` holds.
spec fn layer_held(layer: NodeLayer) -> Layer {
    Layer { depth: layer.depth as nat, nodes: outlines(layer.nodes@) }
}

/// The stack that `stack` holds.
spec fn stack_held(stack: Seq<NodeLayer>) -> Seq<Layer> {
    Seq::new(stack.len(), |i: int| layer_held(stack[i]))
}

/// Where the run that begins `text` ends.
fn first_run_end(text: &Vec<char>) -> (end: usize)
    requires
        text.len() > 0,
    ensures
        end == run_end(text@, 0),
        0 < end <= text.len(),
{
    let marker = is_marker_char(text[0]);
    let mut end: usize = 1;
    while end < text.len() && is_marker_char(text[end]) == marker
        invariant
            0 < end <= text.len(),
            marker == is_marker(text@[0]),
            run_end(text@, 0) == run_end(text@, end - 1),
            is_marker(text@[end - 1]) == marker,
        decreases text.len() - end,
    {
        end += 1;
    }
    end
}

/// Closes the top layer: its nodes become the children of the last node of
/// the layer below.
fn close_top_layer(stack: &mut Vec<NodeLayer>)
    requires
        stack_ok(stack_held(old(stack)@)),
        old(stack).len() >= 2,
    ensures
        stack_held(final(stack)@) == close_top(stack_held(old(stack)@)),
{
    let ghost before = stack_held(stack@);
    let top_layer = stack.pop().unwrap();
    let mut below = stack.pop().unwrap();
    proof {
        assert(before[before.len() - 1] == layer_held(top_layer));
        assert(before[before.len() - 2] == layer_held(below));
    }
    let ghost siblings = outlines(below.nodes@);
    let mut parent = below.nodes.pop().unwrap();
    proof {
        lemma_outline_of(parent);
        assert(siblings.last() == parent@);
    }
    parent.children = top_layer.nodes;
    proof {
        lemma_outline_of(parent);
        assert(parent@.children =~= outlines(top_layer.nodes@));
        assert(outlines(below.nodes@.push(parent)) =~= siblings.drop_last().push(parent@));
    }
    below.nodes.push(parent);
    proof {
        assert(stack_held(stack@.push(below)) =~= close_top(before));
    }
    stack.push(below);
}

/// Closes every layer deeper than `depth`.
fn close_layers(stack: &mut Vec<NodeLayer>, depth: usize)
    requires
        stack_ok(stack_held(old(stack)@)),
    ensures
        stack_held(final(stack)@) == close_to(stack_held(old(stack)@), depth as nat),
        stack_ok(stack_held(final(stack)@)),
        final(stack).len() >= 1,
{
    let ghost before = stack_held(stack@);
    while stack.len() >= 2 && depth < stack[stack.len() - 1].depth
        invariant
            stack_ok(stack_held(stack@)),
            close_to(stack_held(stack@), depth as nat) == close_to(before, depth as nat),
        decreases stack.len(),
    {
        proof {
            lemma_close_top_ok(stack_held(stack@));
        }
        close_top_layer(stack);
    }
}

/// Adds a node with the label `label` at `depth`.
fn open_layer(stack: &mut Vec<NodeLayer>, depth: usize, label: &Vec<char>)
    requires
        stack_ok(stack_held(old(stack)@)),
        depth >= 1,
    ensures
        stack_held(final(stack)@) == open_node(stack_held(old(stack)@), depth as nat, label@),
        stack_ok(stack_held(final(stack)@)),
{
    let ghost before = stack_held(stack@);
    proof {
        lemma_open_node_ok(before, depth as nat, label@);
    }
    close_layers(stack, depth);
    let ghost closed = stack_held(stack@);
    let node = TreeNode { label: string_of(label), children: Vec::new() };
    proof {
        lemma_outline_of(node);
        assert(node@.children =~= Seq::empty());
    }
    if depth > stack[stack.len() - 1].depth {
        let mut nodes: Vec<TreeNode> = Vec::new();
        nodes.push(node);
        let layer = NodeLayer { depth, nodes };
        proof {
            assert(outlines(layer.nodes@) =~= seq![node@]);
            assert(stack_held(stack@.push(layer)) =~= closed.push(layer_held(layer)));
        }
        stack.push(layer);
    } else {
        let mut layer = stack.pop().unwrap();
        let ghost siblings = outlines(layer.nodes@);
        proof {
            assert(closed.last() == layer_held(layer));
            assert(outlines(layer.nodes@.push(node)) =~= siblings.push(node@));
        }
        layer.nodes.push(node);
        proof {
            assert(stack_held(stack@.push(layer)) =~= closed.update(
                closed.len() - 1,
                layer_held(layer),
            ));
        }
        stack.push(layer);
    }
}

/// Continues the label of the last node read with a line break and `text`.
fn continue_last(stack: &mut Vec<NodeLayer>, text: &Vec<char>)
    requires
        stack_ok(stack_held(old(stack)@)),
    ensures
        stack_held(final(stack)@) == continue_label(stack_held(old(stack)@), text@),
        stack_ok(stack_held(final(stack)@)),
{
    let ghost before = stack_held(stack@);
    proof {
        lemma_continue_label_ok(before, text@);
    }
    let mut layer = stack.pop().unwrap();
    let ghost siblings = outlines(layer.nodes@);
    proof {
        assert(before.last() == layer_held(layer));
    }
    let mut node = layer.nodes.pop().unwrap();
    let ghost label = node.label@;
    let ghost children = node@.children;
    proof {
        lemma_outline_of(node);
        assert(siblings.last() == node@);
    }
    let ghost kept = node.children@;
    node.label.push('\\');
    node.label.push('n');
    let mut i: usize = 0;
    while i < text.len()
        invariant
            i <= text.len(),
            node.label@ == label + seq!['\\', 'n'] + text@.take(i as int),
            node.children@ == kept,
        decreases text.len() - i,
    {
        node.label.push(text[i]);
        proof {
            assert(label + seq!['\\', 'n'] + text@.take(i + 1) =~= (label + seq!['\\', 'n']
                + text@.take(i as int)).push(text@[i as int]));
        }
        i += 1;
    }
    proof {
        assert(text@.take(i as int) =~= text@);
        lemma_outline_of(node);
        assert(node@.children =~= children);
        assert(outlines(layer.nodes@.push(node)) =~= siblings.update(siblings.len() - 1, node@));
    }
    layer.nodes.push(node);
    proof {
        assert(stack_held(stack@.push(layer)) =~= before.update(
            before.len() - 1,
            layer_held(layer),
        ));
    }
    stack.push(layer);
}

/// The outline that `content` describes, with labels wrapped to `width`.
pub fn parse_markdown(content: String, width: Option<usize>) -> (roots: Vec<TreeNode>)
    ensures
        outlines(roots@) == outline_read(content@, width),
{
    let chars = chars_of(content.as_str());
    let lines = split(&chars, '\n');
    let ghost rows = char_rows(lines@);

    // A node at depth 0 holds the roots.
    let holder = TreeNode { label: String::new(), children: Vec::new() };
    let mut holders: Vec<TreeNode> = Vec::new();
    proof {
        lemma_outline_of(holder);
        assert(holder@.children =~= Seq::empty());
        assert(outlines(holders@.push(holder)) =~= seq![holder@]);
    }
    holders.push(holder);
    let root_layer = NodeLayer { depth: 0, nodes: holders };
    let mut stack: Vec<NodeLayer> = Vec::new();
    proof {
        assert(stack_held(stack@.push(root_layer)) =~= empty_stack());
    }
    stack.push(root_layer);

    let mut i: usize = 0;
    while i < lines.len()
        invariant
            i <= lines.len(),
            rows == char_rows(lines@),
            rows == split_on(chars@, '\n'),
            byte_len(chars@) <= usize::MAX,
            stack_ok(stack_held(stack@)),
            stack_held(stack@) == read_lines(rows, width, i as nat),
        decreases lines.len() - i,
    {
        let line = trim(&lines[i]);
        proof {
            assert(rows[i as int] == lines[i as int]@);
            lemma_piece_bytes(chars@, '\n', i as int);
            lemma_trimmed_bytes(rows[i as int]);
        }
        if line.len() > 0 {
            if is_marker_char(line[0]) {
                let end = first_run_end(&line);
                if end < line.len() {
                    let (depth, label) = parse_line_chars(&line, width);
                    proof {
                        assert forall|k: int| 0 <= k < end implies is_marker(
                            #[trigger] line@.take(end as int)[k],
                        ) by {
                            lemma_run_uniform(line@, 0, k);
                        }
                        lemma_markers_bytes(line@.take(end as int));
                    }
                    open_layer(&mut stack, depth, &label);
                } else {
                    // A line of markers only: a node with an empty label.
                    let label: Vec<char> = Vec::new();
                    open_layer(&mut stack, end, &label);
                }
            } else {
                // Not a title line: it continues the label of the last node.
                continue_last(&mut stack, &line);
            }
        }
        i += 1;
    }

    close_layers(&mut stack, 0);
    proof {
        assert(stack.len() == 1) by {
            lemma_close_to_ok(read_lines(rows, width, rows.len()), 0);
        }
    }
    let mut root_layer = stack.pop().unwrap();
    let ghost held = outlines(root_layer.nodes@);
    let holder = root_layer.nodes.pop().unwrap();
    proof {
        lemma_outline_of(holder);
        assert(held[0] == holder@);
        assert(holder@.children =~= outlines(holder.children@));
    }
    holder.children
}

} // verus!
