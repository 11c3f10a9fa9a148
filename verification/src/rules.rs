//! Ordering rules and the line-oriented text they are written in.
//!
//! A rule text is a list of blocks. A line that is exactly `[Order]` opens a
//! block, the lines that follow name one item each, and a blank line closes
//! the block. Lines that start with `;` are comments. A comment or a header
//! inside an open block names no item and leaves the block open.

use vstd::prelude::*;
use crate::text::{lines_of, names, split_lines};

verus! {

/// A name as it stands on a line.
pub type Name = Seq<char>;

/// `(before, after)`: the first item has to precede the second.
pub type Constraint = (Seq<char>, Seq<char>);

/// The precedence pairs of all rule blocks, in the order they were written.
#[derive(Debug, Clone, PartialEq, Eq)]
pub struct Rules {
    pub order: Vec<(String, String)>,
}

impl View for Rules {
    type V = Seq<Constraint>;

    open spec fn view(&self) -> Seq<Constraint> {
        pairs(self.order@)
    }
}

impl Default for Rules {
    fn default() -> (rules: Rules)
        ensures
            rules@ == Seq::<Constraint>::empty(),
    {
        let rules = Rules { order: Vec::new() };
        proof {
            assert(pairs(rules.order@) == Seq::<Constraint>::empty());
        }
        rules
    }
}

/// Why a rule text could not be parsed.
#[derive(Debug, Clone, Copy, PartialEq, Eq)]
pub enum ParseError {
    /// The source could not be opened or read.
    Io,
}

/// The character sequences of a list of string pairs.
pub open spec fn pairs(v: Seq<(String, String)>) -> Seq<Constraint> {
    v.map_values(|p: (String, String)| (p.0@, p.1@))
}

/// A line that starts with `;`.
pub open spec fn is_comment(line: Name) -> bool {
    line.len() > 0 && line[0] == ';'
}

/// The line that opens an order block.
pub open spec fn order_header() -> Name {
    seq!['[', 'O', 'r', 'd', 'e', 'r', ']']
}

/// The constraints of one block: each item has to precede the next one.
/// A block of fewer than two items gives none.
pub open spec fn chain(block: Seq<Name>) -> Seq<Constraint> {
    Seq::new(
        if block.len() >= 2 {
            (block.len() - 1) as nat
        } else {
            0
        },
        |i: int| (block[i], block[i + 1]),
    )
}

/// Whether a line names an item where it stands inside a block: it is no
/// comment, no header and not blank.
pub open spec fn is_item(line: Name) -> bool {
    !is_comment(line) && line.len() > 0 && line != order_header()
}

/// The constraints that `lines` give when read in the state `(in_block,
/// block)`: `in_block` says whether an order block is open, and `block`
/// holds the items that the open block has so far.
///
/// A comment is passed over. A blank line closes the open block. A header
/// opens a block where none is open and is passed over inside an open
/// block. Every other line is an item of the open block, and is passed
/// over where no block is open. The end of the lines closes the open block.
pub open spec fn constraints_from(lines: Seq<Name>, in_block: bool, block: Seq<Name>) -> Seq<
    Constraint,
>
    decreases lines.len(),
{
    if lines.len() == 0 {
        chain(block)
    } else {
        let line = lines[0];
        let rest = lines.drop_first();
        if is_comment(line) {
            constraints_from(rest, in_block, block)
        } else if in_block && line.len() == 0 {
            chain(block) + constraints_from(rest, false, Seq::empty())
        } else if line == order_header() {
            constraints_from(
                rest,
                true,
                if in_block {
                    block
                } else {
                    Seq::empty()
                },
            )
        } else if in_block {
            constraints_from(rest, true, block.push(line))
        } else {
            constraints_from(rest, false, Seq::empty())
        }
    }
}

/// The constraints that a rule text of these lines declares.
pub open spec fn parsed_constraints(lines: Seq<Name>) -> Seq<Constraint> {
    constraints_from(lines, false, Seq::empty())
}

/// Both sides of every constraint are items.
pub open spec fn sides_are_items(list: Seq<Constraint>) -> bool {
    forall|c: int| 0 <= c < list.len() ==> is_item((#[trigger] list[c]).0) && is_item(list[c].1)
}

/// No comment, no header and no blank line is ever a side of a constraint.
pub proof fn lemma_sides_are_items(lines: Seq<Name>, in_block: bool, block: Seq<Name>)
    requires
        forall|k: int| 0 <= k < block.len() ==> is_item(#[trigger] block[k]),
    ensures
        sides_are_items(constraints_from(lines, in_block, block)),
    decreases lines.len(),
{
    let all = constraints_from(lines, in_block, block);
    let closed = chain(block);
    assert(sides_are_items(closed)) by {
        assert forall|c: int| 0 <= c < closed.len() implies is_item((#[trigger] closed[c]).0)
            && is_item(closed[c].1) by {
            assert(closed[c] == (block[c], block[c + 1]));
        }
    }
    if lines.len() > 0 {
        let line = lines[0];
        let rest = lines.drop_first();
        if is_comment(line) {
            lemma_sides_are_items(rest, in_block, block);
        } else if in_block && line.len() == 0 {
            let later = constraints_from(rest, false, Seq::empty());
            lemma_sides_are_items(rest, false, Seq::empty());
            assert forall|c: int| 0 <= c < all.len() implies is_item((#[trigger] all[c]).0)
                && is_item(all[c].1) by {
                if c < closed.len() {
                    assert(all[c] == closed[c]);
                } else {
                    assert(all[c] == later[c - closed.len()]);
                }
            }
        } else if line == order_header() {
            lemma_sides_are_items(
                rest,
                true,
                if in_block {
                    block
                } else {
                    Seq::empty()
                },
            );
        } else if in_block {
            lemma_sides_are_items(rest, true, block.push(line));
        } else {
            lemma_sides_are_items(rest, false, Seq::empty());
        }
    }
}

/// Appends the constraints of one block to `order`.
fn push_chain(order: &mut Vec<(String, String)>, block: &Vec<String>)
    ensures
        pairs(final(order)@) == pairs(old(order)@) + chain(names(block@)),
{
    let ghost before = pairs(order@);
    if block.len() < 2 {
        proof {
            assert(before + chain(names(block@)) == before);
        }
        return ;
    }
    let mut i: usize = 0;
    while i < block.len() - 1
        invariant
            block.len() >= 2,
            i <= block.len() - 1,
            before == pairs(old(order)@),
            pairs(order@) == before + chain(names(block@)).subrange(0, i as int),
        decreases block.len() - i,
    {
        let pair = (block[i].clone(), block[i + 1].clone());
        proof {
            let all = chain(names(block@));
            assert(pairs(order@.push(pair)) == pairs(order@).push((pair.0@, pair.1@)));
            assert(all.subrange(0, i + 1) == all.subrange(0, i as int).push(all[i as int]));
            assert(before + all.subrange(0, i + 1) == (before + all.subrange(0, i as int)).push(
                all[i as int],
            ));
        }
        order.push(pair);
        i += 1;
    }
    proof {
        let all = chain(names(block@));
        assert(all.subrange(0, i as int) == all);
    }
}

/// Reads the constraints out of the lines of a rule text. No item of a
/// constraint is a comment, a header or a blank line.
pub fn parse_rule_lines(lines: &Vec<String>) -> (rules: Rules)
    ensures
        rules@ == parsed_constraints(names(lines@)),
        sides_are_items(rules@),
{
    proof {
        lemma_sides_are_items(names(lines@), false, Seq::empty());
    }
    let header = "[Order]".to_owned();
    proof {
        reveal_strlit("[Order]");
        assert(header@ == order_header());
    }
    let mut order: Vec<(String, String)> = Vec::new();
    let mut block: Vec<String> = Vec::new();
    let mut in_block = false;
    let mut i: usize = 0;
    proof {
        assert(names(lines@).subrange(0, lines@.len() as int) == names(lines@));
        assert(pairs(order@) + parsed_constraints(names(lines@)) == parsed_constraints(
            names(lines@),
        ));
        assert(names(block@) == Seq::<Name>::empty());
    }
    while i < lines.len()
        invariant
            i <= lines.len(),
            header@ == order_header(),
            !in_block ==> names(block@) == Seq::<Name>::empty(),
            parsed_constraints(names(lines@)) == pairs(order@) + constraints_from(
                names(lines@).subrange(i as int, lines@.len() as int),
                in_block,
                names(block@),
            ),
        decreases lines.len() - i,
    {
        let line = &lines[i];
        let ghost todo = names(lines@).subrange(i as int, lines@.len() as int);
        let ghost rest = names(lines@).subrange(i + 1, lines@.len() as int);
        proof {
            assert(todo[0] == line@);
            assert(todo.drop_first() == rest);
        }
        let text = line.as_str();
        if !text.is_empty() && text.get_char(0) == ';' {
            // a comment
        } else if in_block && text.is_empty() {
            let ghost acc = pairs(order@);
            let ghost closed = chain(names(block@));
            push_chain(&mut order, &block);
            block = Vec::new();
            in_block = false;
            proof {
                assert(names(block@) == Seq::<Name>::empty());
                assert(acc + (closed + constraints_from(rest, false, Seq::empty())) == (acc
                    + closed) + constraints_from(rest, false, Seq::empty()));
            }
        } else if *line == header {
            in_block = true;
        } else if in_block {
            let item = line.clone();
            proof {
                assert(names(block@.push(item)) == names(block@).push(line@));
            }
            block.push(item);
        }
        i += 1;
    }
    let ghost acc = pairs(order@);
    push_chain(&mut order, &block);
    Rules { order }
}

/// Parses a rule text.
///
/// `source` is the text as it was read, or `None` when it could not be
/// opened or read. No text is refused: a line that is neither a comment, a
/// header nor blank is an item name wherever it stands inside a block. A
/// header inside an open block is passed over like a comment: it is no
/// item, and the block stays open until a blank line closes it.
pub fn parse_rules(source: Option<&str>) -> (parsed: Result<Rules, ParseError>)
    ensures
        source is None ==> parsed == Err::<Rules, ParseError>(ParseError::Io),
        source matches Some(text) ==> parsed is Ok && parsed->Ok_0@ == parsed_constraints(
            lines_of(text@),
        ),
        parsed matches Ok(rules) ==> sides_are_items(rules@),
{
    match source {
        None => Err(ParseError::Io),
        Some(text) => {
            let lines = split_lines(text);
            Ok(parse_rule_lines(&lines))
        },
    }
}

/// The lines of a list file, or no lines when the file could not be read.
pub fn read_file_as_list(source: Option<&str>) -> (list: Vec<String>)
    ensures
        source is None ==> list@.len() == 0,
        source matches Some(text) ==> names(list@) == lines_of(text@),
{
    match source {
        None => Vec::new(),
        Some(text) => split_lines(text),
    }
}

/// The items that constraints mention, each once, in the order in which
/// they are first mentioned.
pub open spec fn mentioned(rules: Seq<Constraint>) -> Seq<Name>
    decreases rules.len(),
{
    if rules.len() == 0 {
        Seq::empty()
    } else {
        let earlier = mentioned(rules.drop_last());
        let with_before = push_new(earlier, rules.last().0);
        push_new(with_before, rules.last().1)
    }
}

/// `list` with `name` at its end, unless `list` holds `name` already.
pub open spec fn push_new(list: Seq<Name>, name: Name) -> Seq<Name> {
    if list.contains(name) {
        list
    } else {
        list.push(name)
    }
}

/// No item is mentioned twice.
pub proof fn lemma_mentioned_distinct(rules: Seq<Constraint>)
    ensures
        mentioned(rules).no_duplicates(),
    decreases rules.len(),
{
    if rules.len() > 0 {
        lemma_mentioned_distinct(rules.drop_last());
    }
}

/// Whether a constraint of `rules` has `name` as a side.
pub open spec fn mentions(rules: Seq<Constraint>, name: Name) -> bool {
    exists|c: int| 0 <= c < rules.len() && ((#[trigger] rules[c]).0 == name || rules[c].1 == name)
}

/// The mentioned items are the sides of the constraints.
pub proof fn lemma_mentioned_holds(rules: Seq<Constraint>, name: Name)
    ensures
        mentioned(rules).contains(name) <==> mentions(rules, name),
    decreases rules.len(),
{
    if rules.len() > 0 {
        let earlier = rules.drop_last();
        let last = rules.last();
        lemma_mentioned_holds(earlier, name);
        let listed = mentioned(earlier);
        let with_before = push_new(listed, last.0);
        let all = push_new(with_before, last.1);
        assert(with_before.contains(name) <==> listed.contains(name) || name == last.0) by {
            if listed.contains(name) {
                let i = choose|i: int| 0 <= i < listed.len() && listed[i] == name;
                assert(with_before[i] == name);
            }
            if with_before.contains(name) && name != last.0 {
                let i = choose|i: int| 0 <= i < with_before.len() && with_before[i] == name;
                assert(listed[i] == name);
            }
            if !listed.contains(last.0) {
                assert(with_before[listed.len() as int] == last.0);
            }
        }
        assert(all.contains(name) <==> with_before.contains(name) || name == last.1) by {
            if with_before.contains(name) {
                let i = choose|i: int| 0 <= i < with_before.len() && with_before[i] == name;
                assert(all[i] == name);
            }
            if all.contains(name) && name != last.1 {
                let i = choose|i: int| 0 <= i < all.len() && all[i] == name;
                assert(with_before[i] == name);
            }
            if !with_before.contains(last.1) {
                assert(all[with_before.len() as int] == last.1);
            }
        }
        if mentions(earlier, name) {
            let c = choose|c: int|
                0 <= c < earlier.len() && ((#[trigger] earlier[c]).0 == name || earlier[c].1
                    == name);
            assert(rules[c] == earlier[c]);
        }
        if mentions(rules, name) {
            let c = choose|c: int|
                0 <= c < rules.len() && ((#[trigger] rules[c]).0 == name || rules[c].1 == name);
            if c < earlier.len() {
                assert(earlier[c] == rules[c]);
            }
        }
        assert(rules[rules.len() - 1] == last);
    }
}

/// Whether `list` holds a string equal to `name`.
pub fn contains_name(list: &Vec<String>, name: &String) -> (found: bool)
    ensures
        found == names(list@).contains(name@),
{
    let mut i: usize = 0;
    while i < list.len()
        invariant
            i <= list.len(),
            forall|k: int| 0 <= k < i ==> names(list@)[k] != name@,
        decreases list.len() - i,
    {
        if list[i] == *name {
            assert(names(list@)[i as int] == name@);
            return true;
        }
        i += 1;
    }
    false
}

/// The items that the rules mention, each once, in order of first mention.
pub fn get_mods_from_rules(rules: &Rules) -> (mods: Vec<String>)
    ensures
        names(mods@) == mentioned(rules@),
        names(mods@).no_duplicates(),
        forall|name: Name| names(mods@).contains(name) <==> mentions(rules@, name),
{
    proof {
        lemma_mentioned_distinct(rules@);
        assert forall|name: Name| mentioned(rules@).contains(name) <==> mentions(rules@, name) by {
            lemma_mentioned_holds(rules@, name);
        }
    }
    let mut result: Vec<String> = Vec::new();
    let mut i: usize = 0;
    proof {
        assert(rules@.subrange(0, 0) == Seq::<Constraint>::empty());
        assert(names(result@) == Seq::<Name>::empty());
    }
    while i < rules.order.len()
        invariant
            i <= rules.order.len(),
            names(result@) == mentioned(rules@.subrange(0, i as int)),
        decreases rules.order.len() - i,
    {
        let ghost done = rules@.subrange(0, i as int);
        let ghost next = rules@.subrange(0, i + 1);
        proof {
            assert(next.drop_last() == done);
            assert(next.last() == (rules.order[i as int].0@, rules.order[i as int].1@));
        }
        let before = &rules.order[i].0;
        if !contains_name(&result, before) {
            let item = before.clone();
            proof {
                assert(names(result@.push(item)) == names(result@).push(before@));
            }
            result.push(item);
        }
        let after = &rules.order[i].1;
        if !contains_name(&result, after) {
            let item = after.clone();
            proof {
                assert(names(result@.push(item)) == names(result@).push(after@));
            }
            result.push(item);
        }
        i += 1;
    }
    proof {
        assert(rules@.subrange(0, i as int) == rules@);
    }
    result
}

} // verus!
