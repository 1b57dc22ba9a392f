//! Text records, one per line, and the tree that a run of them describes.
//!
//! A record is `ID,LABEL,PARENT_ID`. The id is required: a record without an
//! integer there is malformed. The parent id is not: where it is missing or
//! no integer, the node hangs under the root. A missing label is the empty
//! label. Fields after the third are ignored, and so are empty lines.

use crate::tree::{
    has_id, kids, lemma_with_child_has, with_child, Node, NodeView, Tree, TreeError, TreeView,
    ROOT_ID,
};
use vstd::prelude::*;

verus! {

/// The integer that `str::parse::<i64>` reads from a text, if it reads one.
pub uninterp spec fn parsed_i64(text: Seq<char>) -> Option<i64>;

/// Calls `str::parse::<i64>`, which depends on the text alone: the value it
/// gives, or `None` where it gives an error, is what [`parsed_i64`] names.
/// Of that value this claims one thing: an empty text is no integer.
#[verifier::external_body]
fn parse_i64(text: &str) -> (value: Option<i64>)
    ensures
        value == parsed_i64(text@),
        text@.len() == 0 ==> value is None,
{
    text.parse::<i64>().ok()
}

/// One record: a node and the id of its parent.
#[derive(Debug, Clone)]
pub struct Record {
    pub node: Node,
    pub parent_id: i64,
}

/// The place of the first comma of `line` at or after `from`; the length of
/// `line` where there is none.
pub open spec fn field_end(line: Seq<char>, from: int) -> int
    decreases line.len() - from,
{
    if from < 0 || from >= line.len() {
        line.len() as int
    } else if line[from] == ',' {
        from
    } else {
        field_end(line, from + 1)
    }
}

/// The place where the field after the one that ends at `end` starts: behind
/// the comma, or at the end of the line where no comma follows.
pub open spec fn next_start(line: Seq<char>, end: int) -> int {
    if end < line.len() {
        end + 1
    } else {
        line.len() as int
    }
}

/// The place where the `k`-th comma-separated field of `line` starts.
pub open spec fn field_start(line: Seq<char>, k: nat) -> int
    decreases k,
{
    if k == 0 {
        0
    } else {
        next_start(line, field_end(line, field_start(line, (k - 1) as nat)))
    }
}

/// The `k`-th comma-separated field of `line`, counted from 0; empty where
/// the line has no such field.
pub open spec fn field(line: Seq<char>, k: nat) -> Seq<char> {
    line.subrange(field_start(line, k), field_end(line, field_start(line, k)))
}

/// The parent that a record names; the root where it names none.
pub open spec fn parent_or_root(parent_id: Option<i64>) -> i64 {
    match parent_id {
        Some(p) => p,
        None => ROOT_ID,
    }
}

/// The record made of an id field's reading, a label and a parent field's
/// reading: parent and node, or `None` where the id was not read.
pub open spec fn record_of(id: Option<i64>, label: Seq<char>, parent_id: Option<i64>) -> Option<
    (int, NodeView),
> {
    match id {
        Some(v) => Some((parent_or_root(parent_id) as int, NodeView { id: v as int, label })),
        None => None,
    }
}

/// The record that a line holds, or `None` where its id field is no integer.
pub open spec fn record_of_line(line: Seq<char>) -> Option<(int, NodeView)> {
    record_of(parsed_i64(field(line, 0)), field(line, 1), parsed_i64(field(line, 2)))
}

/// Whether a line is neither empty nor a record.
pub open spec fn malformed(line: Seq<char>) -> bool {
    line.len() > 0 && record_of_line(line) is None
}

/// The tree that a run of lines describes, the malformed and the empty ones
/// left out: each record in turn adds its node to its parent's children.
pub open spec fn tree_of(lines: Seq<Seq<char>>) -> TreeView
    decreases lines.len(),
{
    if lines.len() == 0 {
        Map::empty()
    } else {
        let before = tree_of(lines.drop_last());
        match record_of_line(lines.last()) {
            Some((parent, node)) if lines.last().len() > 0 => with_child(before, parent, node),
            _ => before,
        }
    }
}

/// In the tree that a run of lines describes, the node of each record is a
/// child of the parent that the record names: of the root, where it names
/// none.
pub proof fn lemma_record_attached(lines: Seq<Seq<char>>, i: int)
    requires
        0 <= i < lines.len(),
        lines[i].len() > 0,
        record_of_line(lines[i]) is Some,
    ensures
        has_id(
            kids(tree_of(lines), record_of_line(lines[i])->Some_0.0),
            record_of_line(lines[i])->Some_0.1.id,
        ),
        parsed_i64(field(lines[i], 2)) is None ==> has_id(
            kids(tree_of(lines), ROOT_ID as int),
            record_of_line(lines[i])->Some_0.1.id,
        ),
    decreases lines.len(),
{
    let (p, node) = record_of_line(lines[i])->Some_0;
    let before = tree_of(lines.drop_last());
    if i == lines.len() - 1 {
        lemma_with_child_has(before, p, node, p, node.id);
    } else {
        assert(lines.drop_last()[i] == lines[i]);
        lemma_record_attached(lines.drop_last(), i);
        match record_of_line(lines.last()) {
            Some((parent, last)) => {
                lemma_with_child_has(before, parent, last, p, node.id);
            },
            None => {},
        }
    }
}

/// The text of each line of a run, one for one.
pub open spec fn line_texts(lines: Seq<String>) -> Seq<Seq<char>> {
    Seq::new(lines.len(), |i: int| lines[i]@)
}

impl Record {
    /// The parent and the node of this record, as the model has them.
    pub open spec fn edge(&self) -> (int, NodeView) {
        (self.parent_id as int, self.node@)
    }

    /// Makes a record of what was read from the three fields. The id is
    /// required; a parent that was not read is the root.
    pub fn from_fields(id: Option<i64>, label: String, parent_id: Option<i64>) -> (outcome: Result<
        Record,
        TreeError,
    >)
        ensures
            match outcome {
                Ok(record) => record_of(id, label@, parent_id) == Some(record.edge()),
                Err(e) => e == TreeError::MalformedRecord && record_of(id, label@, parent_id)
                    is None,
            },
    {
        match id {
            None => Err(TreeError::MalformedRecord),
            Some(v) => {
                let parent = match parent_id {
                    Some(p) => p,
                    None => ROOT_ID,
                };
                Ok(Record { node: Node { id: v, label }, parent_id: parent })
            },
        }
    }
}

/// The end of the field of `line` that starts at `from`, where `len` is the
/// length of `line`.
fn scan_field(line: &str, from: usize, len: usize) -> (end: usize)
    requires
        from <= len == line@.len(),
    ensures
        from <= end <= len,
        end == field_end(line@, from as int),
{
    let mut end: usize = from;
    while end < len && line.get_char(end) != ','
        invariant
            from <= end <= len == line@.len(),
            field_end(line@, end as int) == field_end(line@, from as int),
        decreases len - end,
    {
        end += 1;
    }
    end
}

/// Reads one line as a record. A line whose id field is missing or empty
/// is malformed; a record whose parent field is missing or empty hangs under
/// the root.
pub fn parse_record(line: &str) -> (outcome: Result<Record, TreeError>)
    ensures
        match outcome {
            Ok(record) => {
                &&& record_of_line(line@) == Some(record.edge())
                &&& field(line@, 0).len() > 0
                &&& field(line@, 2).len() == 0 ==> record.parent_id == ROOT_ID
            },
            Err(e) => e == TreeError::MalformedRecord && record_of_line(line@) is None,
        },
{
    let len: usize = line.unicode_len();
    let id_end: usize = scan_field(line, 0, len);
    let label_start: usize = if id_end < len { id_end + 1 } else { len };
    let label_end: usize = scan_field(line, label_start, len);
    let parent_start: usize = if label_end < len { label_end + 1 } else { len };
    let parent_end: usize = scan_field(line, parent_start, len);
    proof {
        reveal_with_fuel(field_start, 3);
    }
    let id = parse_i64(line.substring_char(0, id_end));
    let label = String::from_str(line.substring_char(label_start, label_end));
    let parent_id = parse_i64(line.substring_char(parent_start, parent_end));
    Record::from_fields(id, label, parent_id)
}

/// Builds the tree that `lines` describe, skipping the empty ones. One
/// malformed line fails the whole build.
pub fn build_tree_from_lines(lines: &Vec<String>) -> (outcome: Result<Tree, TreeError>)
    ensures
        match outcome {
            Ok(tree) => {
                &&& tree.wf()
                &&& tree@ == tree_of(line_texts(lines@))
                &&& forall|i: int| 0 <= i < lines.len() ==> !malformed(#[trigger] lines[i]@)
            },
            Err(e) => {
                &&& e == TreeError::MalformedRecord
                &&& exists|i: int| 0 <= i < lines.len() && malformed(#[trigger] lines[i]@)
            },
        },
{
    let mut tree = Tree::new();
    let mut n: usize = 0;
    assert(line_texts(lines@).take(0) =~= Seq::<Seq<char>>::empty());
    while n < lines.len()
        invariant
            n <= lines.len(),
            tree.wf(),
            tree@ == tree_of(line_texts(lines@).take(n as int)),
            forall|i: int| 0 <= i < n ==> !malformed(#[trigger] lines[i]@),
        decreases lines.len() - n,
    {
        let line = lines[n].as_str();
        let ghost seen = line_texts(lines@).take(n as int + 1);
        assert(seen.drop_last() =~= line_texts(lines@).take(n as int));
        assert(seen.last() == line@);
        if line.unicode_len() > 0 {
            match parse_record(line) {
                Err(e) => {
                    assert(malformed(lines[n as int]@));
                    return Err(e);
                },
                Ok(record) => {
                    tree.insert(record.parent_id, record.node);
                },
            }
        }
        n += 1;
    }
    assert(line_texts(lines@).take(n as int) =~= line_texts(lines@));
    Ok(tree)
}

} // verus!
