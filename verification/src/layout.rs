//! The text diagram: rows of fixed-width cells, one row per level, with a row
//! of branch connectors between two levels.

use vstd::prelude::*;
use vstd::string::StringExecFns;
use crate::binary_tree::slot_pointees;
use crate::binary_tree::BinaryTree;
use crate::shape::Shape;
use crate::shape::SNAPSHOT_SLOTS;

verus! {

/// Number of levels that a diagram can show.
pub const LEVELS: usize = 6;

/// Width of a cell: the columns that a label is expected to fill.
pub const FIELD_WIDTH: usize = 3;

/// Number of cells in the lowest level that a diagram can show.
pub const LOWEST_LEVEL_SLOTS: usize = 32;

/// Width of the whole diagram: for each cell of the lowest level its own
/// columns and one more.
pub const DIAGRAM_WIDTH: usize = LOWEST_LEVEL_SLOTS * (FIELD_WIDTH + 1);

/// `piece`, `count` times in a row.
pub open spec fn repeated(piece: Seq<char>, count: nat) -> Seq<char>
    decreases count,
{
    if count == 0 {
        Seq::empty()
    } else {
        repeated(piece, (count - 1) as nat) + piece
    }
}

/// `count` blank columns.
pub open spec fn blanks(count: nat) -> Seq<char> {
    repeated(seq![' '], count)
}

/// Number of cells in a complete level: 1 at the root, and twice as many
/// with each level down.
pub open spec fn level_slots(level: nat) -> nat
    decreases level,
{
    if level == 0 {
        1
    } else {
        2 * level_slots((level - 1) as nat)
    }
}

/// Index of the first slot of a level in a level-order sequence.
pub open spec fn level_start(level: nat) -> nat {
    (level_slots(level) - 1) as nat
}

/// Number of levels that a level-order sequence of `length` slots reaches
/// into: the levels whose first slot it holds.
pub open spec fn level_count(length: nat) -> nat
    decreases length,
{
    if length == 0 {
        0
    } else {
        1 + level_count(length / 2)
    }
}

/// Number of slots that a sequence of `length` slots holds of a level: all
/// of them, or what is left of the sequence where it ends within the level.
pub open spec fn cells_in_level(length: nat, level: nat) -> nat {
    if length <= level_start(level) {
        0
    } else if length - level_start(level) < level_slots(level) {
        (length - level_start(level)) as nat
    } else {
        level_slots(level)
    }
}

/// Blank columns between two cells of a level: the level's share of the
/// diagram's width, less the cell itself.
pub open spec fn value_gap(level: nat) -> nat {
    (DIAGRAM_WIDTH as int / level_slots(level) as int - FIELD_WIDTH) as nat
}

/// Blank columns between two connectors below a level.
pub open spec fn connector_gap(level: nat) -> nat {
    (DIAGRAM_WIDTH as int / level_slots(level) as int - (FIELD_WIDTH + 2)) as nat
}

/// Blank columns in front of the item at `index` of a row: half the gap in
/// front of the first, which centres the row, and the whole gap in front of
/// the others.
pub open spec fn lead(gap: nat, index: nat) -> nat {
    if index == 0 {
        gap / 2
    } else {
        gap
    }
}

/// What a slot shows: its label, or a run of underscores as wide as a cell
/// where the slot is absent.
pub open spec fn cell(label: Option<Seq<char>>) -> Seq<char> {
    match label {
        Some(text) => text,
        None => repeated(seq!['_'], FIELD_WIDTH as nat),
    }
}

/// A left and a right branch, a cell's width of blanks between them.
pub open spec fn connector() -> Seq<char> {
    seq!['/'] + repeated(seq![' '], FIELD_WIDTH as nat) + seq!['\\']
}

/// A row of `count` cells for the slots from `start` on, `gap` columns
/// apart, each cell behind its blank columns.
pub open spec fn value_cells(
    labels: Seq<Option<Seq<char>>>,
    start: nat,
    gap: nat,
    count: nat,
) -> Seq<char>
    decreases count,
{
    if count == 0 {
        Seq::empty()
    } else {
        value_cells(labels, start, gap, (count - 1) as nat) + blanks(
            lead(gap, (count - 1) as nat),
        ) + cell(labels[start + count - 1])
    }
}

/// A row of `count` connectors, `gap` columns apart, each behind its blank
/// columns.
pub open spec fn connectors(gap: nat, count: nat) -> Seq<char>
    decreases count,
{
    if count == 0 {
        Seq::empty()
    } else {
        connectors(gap, (count - 1) as nat) + blanks(lead(gap, (count - 1) as nat)) + connector()
    }
}

/// The lines of one level: an empty line, the line of cells, and a line
/// that holds one connector for each cell of a complete level, or nothing
/// below the lowest level that a diagram can show.
pub open spec fn level_text(labels: Seq<Option<Seq<char>>>, level: nat) -> Seq<char> {
    seq!['\n'] + value_cells(
        labels,
        level_start(level),
        value_gap(level),
        cells_in_level(labels.len(), level),
    ) + seq!['\n'] + (if level + 1 != LEVELS {
        connectors(connector_gap(level), level_slots(level))
    } else {
        Seq::empty()
    }) + seq!['\n']
}

/// The lines of the first `count` levels.
pub open spec fn levels_text(labels: Seq<Option<Seq<char>>>, count: nat) -> Seq<char>
    decreases count,
{
    if count == 0 {
        Seq::empty()
    } else {
        levels_text(labels, (count - 1) as nat) + level_text(labels, (count - 1) as nat)
    }
}

/// The diagram of a level-order sequence of labels: the lines of every level
/// that the sequence reaches into, from the root down.
pub open spec fn diagram(labels: Seq<Option<Seq<char>>>) -> Seq<char> {
    levels_text(labels, level_count(labels.len()))
}

/// The characters of each label that is present.
pub open spec fn label_texts(labels: Seq<Option<String>>) -> Seq<Option<Seq<char>>> {
    labels.map_values(
        |label: Option<String>|
            match label {
                Some(text) => Some(text@),
                None => None,
            },
    )
}

/// The decimal digit for a number below ten.
pub open spec fn digit(value: int) -> char {
    if value == 0 {
        '0'
    } else if value == 1 {
        '1'
    } else if value == 2 {
        '2'
    } else if value == 3 {
        '3'
    } else if value == 4 {
        '4'
    } else if value == 5 {
        '5'
    } else if value == 6 {
        '6'
    } else if value == 7 {
        '7'
    } else if value == 8 {
        '8'
    } else {
        '9'
    }
}

/// A byte in decimal, with zeros in front up to the width of a cell:
/// hundreds, tens, units.
pub open spec fn byte_text(value: u8) -> Seq<char> {
    seq![digit(value as int / 100), digit(value as int / 10 % 10), digit(value as int % 10)]
}

/// The label of each slot that holds a byte.
pub open spec fn byte_labels(slots: Seq<Option<u8>>) -> Seq<Option<Seq<char>>> {
    slots.map_values(
        |slot: Option<u8>|
            match slot {
                Some(value) => Some(byte_text(value)),
                None => None,
            },
    )
}

/// The first slot of a level lies within a sequence exactly if the level is
/// one of those that the sequence reaches into.
pub proof fn lemma_level_count(length: nat, level: nat)
    ensures
        level_start(level) < length <==> level < level_count(length),
        level_slots(level) >= 1,
    decreases level,
{
    if level > 0 {
        lemma_level_count(length / 2, (level - 1) as nat);
        lemma_level_count(length, (level - 1) as nat);
    }
}

/// A snapshot fills the six levels of a diagram: its diagram has a row of
/// cells for each of them, every row complete, and a row of connectors
/// below each but the last.
pub proof fn lemma_snapshot_fills_diagram(labels: Seq<Option<Seq<char>>>)
    requires
        labels.len() == SNAPSHOT_SLOTS,
    ensures
        level_count(labels.len()) == LEVELS,
        diagram(labels) == levels_text(labels, LEVELS as nat),
        forall|level: nat|
            level < LEVELS ==> #[trigger] cells_in_level(labels.len(), level) == level_slots(level),
{
    reveal_with_fuel(level_count, 7);
    lemma_level_slots_values();
}

/// Rendering is a function of the labels: whatever two calls of
/// `render_labels` return for the same labels is the same text, character
/// for character.
pub proof fn lemma_render_labels_is_deterministic(
    labels: Seq<Option<String>>,
    first_text: Seq<char>,
    second_text: Seq<char>,
)
    requires
        first_text == diagram(label_texts(labels)),
        second_text == diagram(label_texts(labels)),
    ensures
        first_text == second_text,
{
}

/// Appends `piece` to `out`, `count` times.
fn push_repeated(out: &mut String, piece: &str, count: usize)
    ensures
        final(out)@ == old(out)@ + repeated(piece@, count as nat),
{
    let mut done: usize = 0;
    while done < count
        invariant
            done <= count,
            out@ == old(out)@ + repeated(piece@, done as nat),
        decreases count - done,
    {
        out.append(piece);
        done += 1;
        proof {
            assert(out@ =~= old(out)@ + repeated(piece@, done as nat));
        }
    }
}

/// The text for one decimal digit.
fn digit_text(value: u8) -> (text: &'static str)
    requires
        value < 10,
    ensures
        text@ == seq![digit(value as int)],
{
    proof {
        reveal_strlit("0");
        reveal_strlit("1");
        reveal_strlit("2");
        reveal_strlit("3");
        reveal_strlit("4");
        reveal_strlit("5");
        reveal_strlit("6");
        reveal_strlit("7");
        reveal_strlit("8");
        reveal_strlit("9");
    }
    let text = match value {
        0 => "0",
        1 => "1",
        2 => "2",
        3 => "3",
        4 => "4",
        5 => "5",
        6 => "6",
        7 => "7",
        8 => "8",
        _ => "9",
    };
    proof {
        assert(text@ =~= seq![digit(value as int)]);
    }
    text
}

/// The label of a byte: its three decimal digits, zeros in front included.
pub fn byte_label(value: u8) -> (label: String)
    ensures
        label@ == byte_text(value),
{
    let mut label = String::new();
    label.append(digit_text(value / 100));
    label.append(digit_text(value / 10 % 10));
    label.append(digit_text(value % 10));
    proof {
        assert(label@ =~= byte_text(value));
    }
    label
}

/// Appends a row of cells for the slots of `labels` from `start` up to
/// `end`, `spacing` columns apart.
fn push_value_row(
    text: &mut String,
    labels: &[Option<String>],
    start: usize,
    end: usize,
    spacing: usize,
)
    requires
        start <= end <= labels@.len(),
    ensures
        final(text)@ == old(text)@ + value_cells(
            label_texts(labels@),
            start as nat,
            spacing as nat,
            (end - start) as nat,
        ),
{
    let width: usize = FIELD_WIDTH;
    let ghost texts = label_texts(labels@);
    let mut j: usize = 0;
    while start + j < end
        invariant
            start + j <= end <= labels@.len(),
            texts == label_texts(labels@),
            width == FIELD_WIDTH,
            text@ == old(text)@ + value_cells(texts, start as nat, spacing as nat, j as nat),
        decreases end - start - j,
    {
        let space = if j == 0 {
            spacing / 2
        } else {
            spacing
        };
        let ghost row = text@;
        push_repeated(text, " ", space);
        match &labels[start + j] {
            Some(n) => {
                text.append(n.as_str());
            },
            None => {
                push_repeated(text, "_", width);
            },
        }
        proof {
            reveal_strlit(" ");
            reveal_strlit("_");
            assert(" "@ =~= seq![' ']);
            assert("_"@ =~= seq!['_']);
            assert(text@ =~= row + blanks(lead(spacing as nat, j as nat)) + cell(
                texts[start + j],
            ));
            assert(text@ =~= old(text)@ + value_cells(
                texts,
                start as nat,
                spacing as nat,
                (j + 1) as nat,
            ));
        }
        j += 1;
    }
}

/// Appends a row of `amount` connectors, `spacing` columns apart.
fn push_connector_row(text: &mut String, amount: usize, spacing: usize)
    requires
        amount < usize::MAX,
    ensures
        final(text)@ == old(text)@ + connectors(spacing as nat, amount as nat),
{
    let width: usize = FIELD_WIDTH;
    let mut j: usize = 1;
    while j <= amount
        invariant
            1 <= j <= amount + 1,
            amount < usize::MAX,
            width == FIELD_WIDTH,
            text@ == old(text)@ + connectors(spacing as nat, (j - 1) as nat),
        decreases amount + 1 - j,
    {
        let space = if j == 1 {
            spacing / 2
        } else {
            spacing
        };
        let ghost row = text@;
        push_repeated(text, " ", space);
        text.append("/");
        push_repeated(text, " ", width);
        text.append("\\");
        proof {
            reveal_strlit(" ");
            reveal_strlit("/");
            reveal_strlit("\\");
            assert(" "@ =~= seq![' ']);
            assert("/"@ =~= seq!['/']);
            assert("\\"@ =~= seq!['\\']);
            assert(text@ =~= row + blanks(lead(spacing as nat, (j - 1) as nat)) + connector());
            assert(text@ =~= old(text)@ + connectors(spacing as nat, j as nat));
        }
        j += 1;
    }
}

/// The number of cells in each of the levels that a diagram can show, and
/// in the one below them.
proof fn lemma_level_slots_values()
    ensures
        level_slots(0) == 1,
        level_slots(1) == 2,
        level_slots(2) == 4,
        level_slots(3) == 8,
        level_slots(4) == 16,
        level_slots(5) == 32,
        level_slots(6) == 64,
{
    reveal_with_fuel(level_slots, 7);
}

/// The share of the diagram's width that falls to one cell of a level
/// leaves room for the cell, and above the lowest level for a connector.
proof fn lemma_level_share(level: nat)
    requires
        level < LEVELS,
    ensures
        1 <= level_slots(level) <= 32,
        DIAGRAM_WIDTH as int / level_slots(level) as int >= 4,
        level + 1 < LEVELS ==> DIAGRAM_WIDTH as int / level_slots(level) as int >= 8,
{
    lemma_level_slots_values();
    if level == 0 {
        assert(128int / 1 == 128);
    } else if level == 1 {
        assert(128int / 2 == 64);
    } else if level == 2 {
        assert(128int / 4 == 32);
    } else if level == 3 {
        assert(128int / 8 == 16);
    } else if level == 4 {
        assert(128int / 16 == 8);
    } else {
        assert(128int / 32 == 4);
    }
}

/// Draws a level-order sequence of labels as a diagram.
///
/// Level `k` is a line of `2^k` cells taken from `labels` in order, or of
/// as many as are left of them. A cell shows its label, or underscores
/// where the slot is absent. The cells of a level stand `128 / 2^k - 3`
/// columns apart, the first behind half as many. Below each level but the
/// sixth comes a line of `2^k` connectors, `128 / 2^k - 5` columns apart.
/// Each level starts with an empty line and both of its lines end with a
/// line break.
pub fn render_labels(labels: &[Option<String>]) -> (text: String)
    requires
        labels@.len() <= SNAPSHOT_SLOTS,
    ensures
        text@ == diagram(label_texts(labels@)),
{
    let max_depth: usize = LEVELS;
    let width: usize = FIELD_WIDTH;
    let last_row_amount: usize = LOWEST_LEVEL_SLOTS;
    let max_width: usize = last_row_amount * width + last_row_amount;
    let ghost texts = label_texts(labels@);

    let mut text = String::new();

    let mut i: usize = 0;
    let mut x: usize = 1;
    let mut depth: usize = 0;

    while i < labels.len()
        invariant
            labels@.len() <= SNAPSHOT_SLOTS,
            texts == label_texts(labels@),
            max_depth == LEVELS,
            width == FIELD_WIDTH,
            max_width == DIAGRAM_WIDTH,
            depth <= LEVELS,
            x == level_slots(depth as nat),
            i == level_start(depth as nat),
            depth > 0 ==> level_start((depth - 1) as nat) < labels@.len(),
            text@ == levels_text(texts, depth as nat),
        decreases LEVELS - depth,
    {
        proof {
            lemma_level_slots_values();
            lemma_level_share(depth as nat);
            reveal_strlit("\n");
            assert("\n"@ =~= seq!['\n']);
        }
        let ghost above = text@;
        let start = i;
        let end = if x + i < labels.len() {
            x + i
        } else {
            labels.len()
        };

        let amount = x;
        let spacing = (max_width / amount) - width;
        text.append("\n");
        push_value_row(&mut text, labels, start, end, spacing);

        text.append("\n");
        if depth != max_depth - 1 {
            let spacing = (max_width / amount) - (width + 2);
            push_connector_row(&mut text, x, spacing);
        }

        text.append("\n");
        proof {
            assert(text@ =~= above + level_text(texts, depth as nat));
        }

        i += x;
        x *= 2;
        depth += 1;
    }
    proof {
        lemma_levels_reached(labels@.len() as nat, depth as nat);
    }
    text
}

/// The one number of levels whose first slots lie within the sequence while
/// the next level's does not is the level count.
proof fn lemma_levels_reached(length: nat, levels: nat)
    requires
        level_start(levels) >= length,
        levels > 0 ==> level_start((levels - 1) as nat) < length,
    ensures
        levels == level_count(length),
{
    lemma_level_count(length, levels);
    if levels > 0 {
        lemma_level_count(length, (levels - 1) as nat);
    }
}

impl BinaryTree<u8> {
    /// Draws the six upper levels of a tree of bytes: the diagram of its
    /// breadth-first snapshot, each value as three decimal digits.
    pub fn render(&self) -> (text: String)
        ensures
            text@ == Self::rendering(self@),
    {
        let slots = self.breadth_first_snapshot();
        let mut labels: Vec<Option<String>> = Vec::new();
        let mut done: usize = 0;
        while done < slots.len()
            invariant
                done <= slots@.len(),
                labels@.len() == done,
                forall|k: int|
                    0 <= k < done ==> #[trigger] label_texts(labels@)[k] == byte_labels(
                        slot_pointees(slots@),
                    )[k],
            decreases slots@.len() - done,
        {
            let ghost before = labels@;
            match slots[done] {
                Some(value) => {
                    labels.push(Some(byte_label(*value)));
                },
                None => {
                    labels.push(None);
                },
            }
            proof {
                assert forall|k: int| 0 <= k < done + 1 implies #[trigger] label_texts(labels@)[k]
                    == byte_labels(slot_pointees(slots@))[k] by {
                    if k < done {
                        assert(labels@[k] == before[k]);
                        assert(label_texts(before)[k] == byte_labels(slot_pointees(slots@))[k]);
                    }
                }
            }
            done += 1;
        }
        proof {
            assert(label_texts(labels@) =~= byte_labels(self@.snapshot()));
        }
        render_labels(labels.as_slice())
    }

    /// The text that `render` gives for a tree of this shape.
    pub open spec fn rendering(shape: Shape<u8>) -> Seq<char> {
        diagram(byte_labels(shape.snapshot()))
    }

    /// Rendering is a function of the tree: whatever two calls of `render`
    /// return for trees of one shape is the same text.
    pub proof fn lemma_render_is_deterministic(
        first_tree: BinaryTree<u8>,
        second_tree: BinaryTree<u8>,
        first_text: Seq<char>,
        second_text: Seq<char>,
    )
        requires
            first_tree@ == second_tree@,
            first_text == Self::rendering(first_tree@),
            second_text == Self::rendering(second_tree@),
        ensures
            first_text == second_text,
    {
    }
}

} // verus!
