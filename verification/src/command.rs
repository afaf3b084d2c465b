//! The commands of an interactive session with a tree of `i32` keys: what a
//! line of input asks for, and what the tree answers.
//!
//! A line holds a command word and, for `insert` and `delete`, a number.
//! Words are separated by blanks; what follows the words that a command
//! needs is not read.

use crate::bound::{lemma_balanced_size, lemma_leaves_half, lemma_min_size_doubles};
use crate::inorder::{lemma_inorder_keys, lemma_inorder_sorted};
use crate::shape::Shape;
use crate::tree::AVLTree;
use vstd::prelude::*;
use vstd::string::StringSliceAdditionalSpecFns;

verus! {

/// What a line asks for.
#[derive(Debug, Clone, Copy, PartialEq, Eq)]
pub enum Command {
    /// `insert N`: insert the key `N`.
    Insert(i32),
    /// `delete N`: delete the key `N`.
    Delete(i32),
    /// `height`: report the height of the tree.
    Height,
    /// `count`: report the leaf count of the tree.
    Count,
    /// `empty`: report whether the tree is empty.
    Empty,
    /// `inorder`: report the keys in increasing order.
    Inorder,
    /// `show`: render the structure of the tree.
    Show,
    /// `quit`: end the session.
    Quit,
}

/// Why a line is no command.
#[derive(Debug, Clone, Copy, PartialEq, Eq)]
pub enum InputError {
    /// The first word of the line is none of the command words, or the line
    /// holds no word.
    UnknownCommand,
    /// The word after `insert` or `delete` is missing or is no number that
    /// fits an `i32`.
    BadOperand,
}

/// What the tree answers to a command.
#[derive(Debug, PartialEq, Eq)]
pub enum Reply {
    /// The tree took the key in or let it go; there is nothing to report.
    Done,
    /// The height of the tree.
    Height(u32),
    /// The leaf count of the tree.
    Count(u32),
    /// Whether the tree is empty.
    Empty(bool),
    /// The keys of the tree in increasing order.
    Inorder(Vec<i32>),
    /// The structure of the tree is to be rendered.
    Show,
    /// The session is over.
    Quit,
}

/// A blank: a space, or one of the control characters from tab to carriage
/// return.
pub open spec fn is_blank(b: u8) -> bool {
    b == 0x20 || (0x09 <= b && b <= 0x0d)
}

/// The number of blanks that `s` starts with.
pub open spec fn blanks(s: Seq<u8>) -> nat
    decreases s.len(),
{
    if s.len() > 0 && is_blank(s[0]) {
        1 + blanks(s.drop_first())
    } else {
        0
    }
}

/// The length of the word that `s` starts with: the number of bytes before
/// the first blank.
pub open spec fn word_len(s: Seq<u8>) -> nat
    decreases s.len(),
{
    if s.len() > 0 && !is_blank(s[0]) {
        1 + word_len(s.drop_first())
    } else {
        0
    }
}

/// The first word of `s`, empty where `s` holds no word.
pub open spec fn first_word(s: Seq<u8>) -> Seq<u8> {
    let rest = s.skip(blanks(s) as int);
    rest.take(word_len(rest) as int)
}

/// What follows the first word of `s`.
pub open spec fn after_first_word(s: Seq<u8>) -> Seq<u8> {
    let rest = s.skip(blanks(s) as int);
    rest.skip(word_len(rest) as int)
}

/// The second word of `s`, empty where `s` holds fewer than two words.
pub open spec fn second_word(s: Seq<u8>) -> Seq<u8> {
    first_word(after_first_word(s))
}

/// A decimal digit.
pub open spec fn is_digit(b: u8) -> bool {
    0x30 <= b && b <= 0x39
}

/// Every byte of `s` is a decimal digit.
pub open spec fn all_digits(s: Seq<u8>) -> bool {
    forall|i: int| 0 <= i < s.len() ==> is_digit(#[trigger] s[i])
}

/// The number that the digits `s` write in base ten; 0 for no digits.
pub open spec fn decimal(s: Seq<u8>) -> nat
    decreases s.len(),
{
    if s.len() == 0 {
        0
    } else {
        10 * decimal(s.drop_last()) + (s.last() - 0x30) as nat
    }
}

/// The `i32` that `word` writes: an optional sign, `+` or `-`, and then
/// digits, at least one. Nothing where `word` is not of that form or the
/// number does not fit.
pub open spec fn number_of(word: Seq<u8>) -> Option<i32> {
    let negative = word.len() > 0 && word[0] == 0x2d;
    let signed = word.len() > 0 && (word[0] == 0x2d || word[0] == 0x2b);
    let digits = if signed {
        word.drop_first()
    } else {
        word
    };
    let value = if negative {
        -(decimal(digits) as int)
    } else {
        decimal(digits) as int
    };
    if digits.len() > 0 && all_digits(digits) && i32::MIN <= value <= i32::MAX {
        Some(value as i32)
    } else {
        None
    }
}

/// What the line `line` asks for.
///
/// The first word chooses the command. `insert` and `delete` take the second
/// word as their number.
pub open spec fn command_of(line: Seq<u8>) -> Result<Command, InputError> {
    let word = first_word(line);
    let operand = number_of(second_word(line));
    if word == "quit".spec_bytes() {
        Ok(Command::Quit)
    } else if word == "insert".spec_bytes() {
        match operand {
            Some(key) => Ok(Command::Insert(key)),
            None => Err(InputError::BadOperand),
        }
    } else if word == "delete".spec_bytes() {
        match operand {
            Some(key) => Ok(Command::Delete(key)),
            None => Err(InputError::BadOperand),
        }
    } else if word == "height".spec_bytes() {
        Ok(Command::Height)
    } else if word == "count".spec_bytes() {
        Ok(Command::Count)
    } else if word == "empty".spec_bytes() {
        Ok(Command::Empty)
    } else if word == "inorder".spec_bytes() {
        Ok(Command::Inorder)
    } else if word == "show".spec_bytes() {
        Ok(Command::Show)
    } else {
        Err(InputError::UnknownCommand)
    }
}

/// Whether a byte is a blank.
fn blank(b: u8) -> (res: bool)
    ensures
        res == is_blank(b),
{
    b == 0x20 || (0x09 <= b && b <= 0x0d)
}

/// The index of the first byte at or after `from` that is no blank.
fn skip_blanks(line: &[u8], from: usize) -> (to: usize)
    requires
        from <= line.len(),
    ensures
        from <= to <= line.len(),
        to == from + blanks(line@.skip(from as int)),
{
    let mut i = from;
    while i < line.len() && blank(line[i])
        invariant
            from <= i <= line.len(),
            blanks(line@.skip(from as int)) == (i - from) + blanks(line@.skip(i as int)),
        decreases line.len() - i,
    {
        proof {
            assert(line@.skip(i as int).drop_first() =~= line@.skip(i + 1));
        }
        i += 1;
    }
    i
}

/// The index of the first byte at or after `from` that is a blank.
fn skip_word(line: &[u8], from: usize) -> (to: usize)
    requires
        from <= line.len(),
    ensures
        from <= to <= line.len(),
        to == from + word_len(line@.skip(from as int)),
{
    let mut i = from;
    while i < line.len() && !blank(line[i])
        invariant
            from <= i <= line.len(),
            word_len(line@.skip(from as int)) == (i - from) + word_len(line@.skip(i as int)),
        decreases line.len() - i,
    {
        proof {
            assert(line@.skip(i as int).drop_first() =~= line@.skip(i + 1));
        }
        i += 1;
    }
    i
}

/// Whether the bytes of `line` from `from` up to `to` are those of `word`.
#[verifier::loop_isolation(false)]
fn is_word(line: &[u8], from: usize, to: usize, word: &str) -> (res: bool)
    requires
        from <= to <= line.len(),
    ensures
        res == (line@.subrange(from as int, to as int) == word.spec_bytes()),
{
    let bytes = word.as_bytes();
    let ghost part = line@.subrange(from as int, to as int);
    if to - from != bytes.len() {
        return false;
    }
    let mut i: usize = 0;
    while i < bytes.len()
        invariant
            from <= to <= line.len(),
            to - from == bytes.len(),
            i <= bytes.len(),
            part == line@.subrange(from as int, to as int),
            forall|j: int| 0 <= j < i ==> part[j] == bytes[j],
        decreases bytes.len() - i,
    {
        if line[from + i] != bytes[i] {
            return false;
        }
        i += 1;
    }
    assert(part =~= bytes@);
    true
}

/// A longer row of digits writes no smaller number.
proof fn lemma_decimal_grows(s: Seq<u8>, n: int)
    requires
        0 <= n <= s.len(),
    ensures
        decimal(s.take(n)) <= decimal(s),
    decreases s.len(),
{
    if n < s.len() {
        lemma_decimal_grows(s.drop_last(), n);
        assert(s.drop_last().take(n) =~= s.take(n));
    } else {
        assert(s.take(n) =~= s);
    }
}

/// The number that the bytes of `line` from `from` up to `to` write.
#[verifier::loop_isolation(false)]
fn parse_number(line: &[u8], from: usize, to: usize) -> (res: Option<i32>)
    requires
        from <= to <= line.len(),
    ensures
        res == number_of(line@.subrange(from as int, to as int)),
{
    let ghost word = line@.subrange(from as int, to as int);
    if from == to {
        return None;
    }
    let negative = line[from] == 0x2d;
    let signed = negative || line[from] == 0x2b;
    let start = if signed { from + 1 } else { from };
    let ghost digits = line@.subrange(start as int, to as int);
    proof {
        if signed {
            assert(word.drop_first() =~= digits);
        }
    }
    if start == to {
        return None;
    }
    let mut value: i64 = 0;
    let mut i = start;
    while i < to
        invariant
            start <= i <= to <= line.len(),
            digits == line@.subrange(start as int, to as int),
            all_digits(digits.take(i - start)),
            value == decimal(digits.take(i - start)),
            0 <= value <= 0x8000_0000,
        decreases to - i,
    {
        let b = line[i];
        let ghost seen = digits.take(i - start + 1);
        proof {
            assert(seen.drop_last() =~= digits.take(i - start));
        }
        if !(0x30 <= b && b <= 0x39) {
            assert(!is_digit(digits[i - start]));
            return None;
        }
        value = value * 10 + (b - 0x30) as i64;
        if value > 0x8000_0000 {
            proof {
                lemma_decimal_grows(digits, i - start + 1);
            }
            return None;
        }
        i += 1;
    }
    proof {
        assert(digits.take(i - start) =~= digits);
    }
    if negative {
        Some((0 - value) as i32)
    } else if value <= 0x7fff_ffff {
        Some(value as i32)
    } else {
        None
    }
}

/// Reads a line as a command. A line that is none is refused with the
/// reason.
pub fn parse_line(line: &str) -> (res: Result<Command, InputError>)
    ensures
        res == command_of(line.spec_bytes()),
{
    let bytes = line.as_bytes();
    let word_start = skip_blanks(bytes, 0);
    let word_end = skip_word(bytes, word_start);
    let operand_start = skip_blanks(bytes, word_end);
    let operand_end = skip_word(bytes, operand_start);
    proof {
        let s = bytes@;
        let rest = s.skip(word_start as int);
        let after = rest.skip(word_len(rest) as int);
        assert(s.skip(0) =~= s);
        assert(after =~= s.skip(word_end as int));
        assert(first_word(s) =~= s.subrange(word_start as int, word_end as int));
        let tail = after.skip(blanks(after) as int);
        assert(tail =~= s.skip(operand_start as int));
        assert(second_word(s) =~= s.subrange(operand_start as int, operand_end as int));
    }
    if is_word(bytes, word_start, word_end, "quit") {
        Ok(Command::Quit)
    } else if is_word(bytes, word_start, word_end, "insert") {
        match parse_number(bytes, operand_start, operand_end) {
            Some(key) => Ok(Command::Insert(key)),
            None => Err(InputError::BadOperand),
        }
    } else if is_word(bytes, word_start, word_end, "delete") {
        match parse_number(bytes, operand_start, operand_end) {
            Some(key) => Ok(Command::Delete(key)),
            None => Err(InputError::BadOperand),
        }
    } else if is_word(bytes, word_start, word_end, "height") {
        Ok(Command::Height)
    } else if is_word(bytes, word_start, word_end, "count") {
        Ok(Command::Count)
    } else if is_word(bytes, word_start, word_end, "empty") {
        Ok(Command::Empty)
    } else if is_word(bytes, word_start, word_end, "inorder") {
        Ok(Command::Inorder)
    } else if is_word(bytes, word_start, word_end, "show") {
        Ok(Command::Show)
    } else {
        Err(InputError::UnknownCommand)
    }
}

/// A valid tree of `i32` keys holds at most as many keys as there are
/// `i32` values, so its height and its leaf count are far from the end of
/// `u32`.
pub proof fn lemma_i32_tree_fits(s: Shape<i32>)
    requires
        s.valid(),
    ensures
        s.size() <= 0x1_0000_0000,
        s.height() <= 0x8000_0001,
        s.leaves() <= 0x8000_0000,
{
    lemma_inorder_sorted(s);
    lemma_inorder_keys(s);
    let keys = s.inorder();
    // The keys are distinct, so as integers they are as many as the
    // integers they make up, which all lie in the range of `i32`.
    let wide = keys.map_values(|k: i32| k as int);
    wide.unique_seq_to_set();
    let all = vstd::set_lib::set_int_range(-0x8000_0000, 0x8000_0000);
    vstd::set_lib::lemma_int_range(-0x8000_0000, 0x8000_0000);
    assert(wide.to_set().subset_of(all));
    vstd::set_lib::lemma_len_subset(wide.to_set(), all);
    lemma_balanced_size(s);
    lemma_min_size_doubles(s.height());
    lemma_leaves_half(s);
}

/// Carries out `command` on `tree` and hands back the answer.
///
/// `insert` and `delete` change the tree and report nothing. Every other
/// command leaves the tree as it is.
pub fn run(tree: &mut AVLTree<i32>, command: Command) -> (reply: Reply)
    ensures
        match command {
            Command::Insert(key) => reply == Reply::Done && final(tree)@ == old(tree)@.insert(key),
            Command::Delete(key) => reply == Reply::Done && final(tree)@ == old(tree)@.delete(key),
            Command::Height => reply == Reply::Height(old(tree)@.height() as u32),
            Command::Count => reply == Reply::Count(old(tree)@.leaves() as u32),
            Command::Empty => reply == Reply::Empty(old(tree)@ is Nil),
            Command::Inorder => reply matches Reply::Inorder(keys) && keys@ == old(tree)@.inorder(),
            Command::Show => reply == Reply::Show,
            Command::Quit => reply == Reply::Quit,
        },
        !(command is Insert || command is Delete) ==> *final(tree) == *old(tree),
        final(tree)@.valid(),
{
    let height = tree.height();
    proof {
        lemma_i32_tree_fits(tree@);
    }
    match command {
        Command::Insert(key) => {
            tree.insert(key);
            Reply::Done
        },
        Command::Delete(key) => {
            tree.delete(key);
            Reply::Done
        },
        Command::Height => Reply::Height(height),
        Command::Count => Reply::Count(tree.count_leaves()),
        Command::Empty => Reply::Empty(tree.is_empty()),
        Command::Inorder => Reply::Inorder(tree.inorder_traversal()),
        Command::Show => Reply::Show,
        Command::Quit => Reply::Quit,
    }
}

} // verus!
