//! The columns of a text: the characters that one key letter has
//! encrypted, which stand a key length apart.

use crate::text::to_chars;
use vstd::arithmetic::div_mod::{
    lemma_div_is_ordered, lemma_div_multiples_vanish, lemma_fundamental_div_mod,
    lemma_fundamental_div_mod_converse,
};
use vstd::arithmetic::mul::{lemma_mul_inequality, lemma_mul_is_commutative};
use vstd::prelude::*;

verus! {

/// The number of positions below `length` that fall into column `column`
/// when positions are dealt out in turn to `width` columns.
pub open spec fn column_length(length: int, width: int, column: int) -> int {
    if column < length {
        (length - column - 1) / width + 1
    } else {
        0
    }
}

/// Column `column` of a text laid out in `width` columns: the characters at
/// positions `column`, `column + width`, `column + 2 * width` and so on, in
/// the order of the text.
pub open spec fn block_of(text: Seq<char>, width: int, column: int) -> Seq<char> {
    Seq::new(
        column_length(text.len() as int, width, column) as nat,
        |row: int| text[column + row * width],
    )
}

/// The columns of a text laid out in `width` columns.
pub open spec fn blocks_of(text: Seq<char>, width: int) -> Seq<Seq<char>> {
    Seq::new(width as nat, |column: int| block_of(text, width, column))
}

/// The number of characters in all the blocks together.
pub open spec fn total_length(blocks: Seq<Seq<char>>) -> nat
    decreases blocks.len(),
{
    if blocks.len() == 0 {
        0
    } else {
        total_length(blocks.drop_last()) + blocks.last().len()
    }
}

/// The text of `length` characters that takes its characters from the
/// blocks in turn: the character at a position comes from the block at that
/// position modulo the number of blocks.
pub open spec fn interleaved(blocks: Seq<Seq<char>>, length: nat) -> Seq<char> {
    Seq::new(
        length,
        |at: int| blocks[at % (blocks.len() as int)][at / (blocks.len() as int)],
    )
}

/// Row `row` lies in a column exactly if its position lies in the text.
pub proof fn lemma_column_rows(length: int, width: int, column: int, row: int)
    requires
        0 <= length,
        0 < width,
        0 <= column < width,
        0 <= row,
    ensures
        row < column_length(length, width, column) <==> column + row * width < length,
        0 <= column_length(length, width, column),
{
    assert(0 <= row * width) by (nonlinear_arith)
        requires
            0 <= row,
            0 < width,
    ;
    if column < length {
        let x = length - column - 1;
        lemma_fundamental_div_mod(x, width);
        lemma_mul_is_commutative(width, x / width);
        if row * width <= x {
            lemma_div_is_ordered(row * width, x, width);
            lemma_div_multiples_vanish(row, width);
            lemma_mul_is_commutative(width, row);
        }
        if row <= x / width {
            lemma_mul_inequality(row, x / width, width);
        }
        lemma_div_is_ordered(0, x, width);
    }
}

/// A column gains a row with each position that falls into it.
pub proof fn lemma_column_length_step(length: int, width: int, column: int)
    requires
        0 <= length,
        0 < width,
        0 <= column < width,
    ensures
        column_length(length + 1, width, column) == column_length(length, width, column) + if column
            == length % width {
            1int
        } else {
            0int
        },
        column == length % width ==> column + column_length(length, width, column) * width
            == length,
{
    let rows = column_length(length, width, column);
    let more = column_length(length + 1, width, column);
    lemma_column_rows(length, width, column, rows);
    lemma_column_rows(length + 1, width, column, rows);
    lemma_column_rows(length + 1, width, column, more);
    lemma_column_rows(length + 1, width, column, rows + 1);
    assert((rows + 1) * width == rows * width + width) by (nonlinear_arith);
    if rows >= 1 {
        lemma_column_rows(length, width, column, rows - 1);
        lemma_column_rows(length + 1, width, column, rows - 1);
    }
    if more >= 1 {
        lemma_column_rows(length + 1, width, column, more - 1);
        lemma_column_rows(length, width, column, more - 1);
    }
    if column + rows * width == length {
        lemma_fundamental_div_mod_converse(length, width, rows, column);
    }
    if column == length % width {
        let q = length / width;
        lemma_fundamental_div_mod(length, width);
        lemma_mul_is_commutative(width, q);
        lemma_div_is_ordered(0, length, width);
        lemma_column_rows(length, width, column, q);
        if q >= 1 {
            assert((q - 1) * width == q * width - width) by (nonlinear_arith);
            lemma_column_rows(length, width, column, q - 1);
        }
    }
}

/// How a column of a text grows when the text grows by one character.
pub proof fn lemma_block_step(text: Seq<char>, at: int, width: int, column: int)
    requires
        0 <= at < text.len(),
        0 < width,
        0 <= column < width,
    ensures
        block_of(text.take(at + 1), width, column) == if column == at % width {
            block_of(text.take(at), width, column).push(text[at])
        } else {
            block_of(text.take(at), width, column)
        },
{
    let before = block_of(text.take(at), width, column);
    let after = block_of(text.take(at + 1), width, column);
    lemma_column_length_step(at, width, column);
    lemma_column_rows(at, width, column, 0);
    assert forall|row: int| 0 <= row < before.len() implies after[row] == before[row] by {
        lemma_column_rows(at, width, column, row);
    }
    if column == at % width {
        assert(after =~= before.push(text[at]));
    } else {
        assert(after =~= before);
    }
}

/// The blocks hold each character of the text once: together they are as
/// long as the text.
pub proof fn blocks_hold_whole_text(text: Seq<char>, width: int)
    requires
        0 < width,
    ensures
        total_length(blocks_of(text, width)) == text.len(),
    decreases text.len(),
{
    if text.len() == 0 {
        lemma_total_length_of_empty_blocks(blocks_of(text, width));
    } else {
        let at = text.len() - 1;
        let shorter = text.take(at);
        blocks_hold_whole_text(shorter, width);
        assert(text.take(at + 1) == text);
        let column = at % width;
        assert(0 <= column < width) by (nonlinear_arith)
            requires
                column == at % width,
                0 <= at,
                0 < width,
        ;
        let before = blocks_of(shorter, width);
        let after = blocks_of(text, width);
        assert forall|j: int| 0 <= j < width implies after[j] == if j == column {
            before[j].push(text[at])
        } else {
            before[j]
        } by {
            lemma_block_step(text, at, width, j);
        }
        assert(after =~= before.update(column, before[column].push(text[at])));
        lemma_total_length_grows(before, column, text[at]);
    }
}

/// Blocks that are all empty hold nothing.
proof fn lemma_total_length_of_empty_blocks(blocks: Seq<Seq<char>>)
    requires
        forall|j: int| 0 <= j < blocks.len() ==> (#[trigger] blocks[j]).len() == 0,
    ensures
        total_length(blocks) == 0,
    decreases blocks.len(),
{
    if blocks.len() > 0 {
        lemma_total_length_of_empty_blocks(blocks.drop_last());
    }
}

/// One more character in one block is one more in all.
proof fn lemma_total_length_grows(blocks: Seq<Seq<char>>, column: int, c: char)
    requires
        0 <= column < blocks.len(),
    ensures
        total_length(blocks.update(column, blocks[column].push(c))) == total_length(blocks) + 1,
    decreases blocks.len(),
{
    let grown = blocks.update(column, blocks[column].push(c));
    if column == blocks.len() - 1 {
        assert(grown.drop_last() == blocks.drop_last());
    } else {
        lemma_total_length_grows(blocks.drop_last(), column, c);
        assert(grown.drop_last() == blocks.drop_last().update(
            column,
            blocks.drop_last()[column].push(c),
        ));
    }
}

/// Dealing a text out into blocks and taking the blocks' characters in turn
/// again gives the text back.
pub proof fn interleaving_restores_text(text: Seq<char>, width: int)
    requires
        0 < width,
    ensures
        interleaved(blocks_of(text, width), total_length(blocks_of(text, width))) == text,
{
    blocks_hold_whole_text(text, width);
    let blocks = blocks_of(text, width);
    let again = interleaved(blocks, text.len());
    assert forall|at: int| 0 <= at < text.len() implies again[at] == text[at] by {
        let column = at % width;
        let row = at / width;
        lemma_fundamental_div_mod(at, width);
        lemma_mul_is_commutative(width, row);
        lemma_div_is_ordered(0, at, width);
        assert(0 <= column < width) by (nonlinear_arith)
            requires
                column == at % width,
                0 <= at,
                0 < width,
        ;
        lemma_column_rows(text.len() as int, width, column, row);
    }
    assert(again =~= text);
}

/// Groups a text into `key_length` blocks. The text is not cut into
/// consecutive pieces: each character in turn goes into the next block, so
/// that a block holds what one letter of the key has encrypted.
pub fn group_ciphertext_into_blocks(ciphertext: &String, key_length: usize) -> (blocks: Vec<
    String,
>)
    requires
        key_length > 0,
    ensures
        blocks.len() == key_length,
        forall|column: int|
            0 <= column < key_length ==> (#[trigger] blocks[column])@ == block_of(
                ciphertext@,
                key_length as int,
                column,
            ),
{
    let text = to_chars(ciphertext);
    let mut blocks: Vec<String> = Vec::new();
    let mut column: usize = 0;
    while column < key_length
        invariant
            column <= key_length,
            blocks.len() == column,
            forall|j: int| 0 <= j < column ==> (#[trigger] blocks[j])@ == Seq::<char>::empty(),
        decreases key_length - column,
    {
        blocks.push(String::new());
        column += 1;
    }
    let mut at: usize = 0;
    proof {
        assert forall|j: int| 0 <= j < key_length implies (#[trigger] blocks[j])@ == block_of(
            text@.take(0),
            key_length as int,
            j,
        ) by {
            assert(block_of(text@.take(0), key_length as int, j) =~= Seq::<char>::empty());
        }
    }
    while at < text.len()
        invariant
            at <= text.len(),
            key_length > 0,
            blocks.len() == key_length,
            forall|j: int|
                0 <= j < key_length ==> (#[trigger] blocks[j])@ == block_of(
                    text@.take(at as int),
                    key_length as int,
                    j,
                ),
        decreases text.len() - at,
    {
        let column = at % key_length;
        let c = text[at];
        proof {
            assert forall|j: int| 0 <= j < key_length implies block_of(
                text@.take(at + 1),
                key_length as int,
                j,
            ) == if j == column {
                block_of(text@.take(at as int), key_length as int, j).push(c)
            } else {
                block_of(text@.take(at as int), key_length as int, j)
            } by {
                lemma_block_step(text@, at as int, key_length as int, j);
            }
        }
        blocks[column].push(c);
        at += 1;
    }
    proof {
        assert(text@.take(at as int) == text@);
    }
    blocks
}

} // verus!
