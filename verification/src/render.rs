//! Rendering a tree as indented text with box-drawing connectors.

use vstd::prelude::*;
use crate::entry::{DataModel, Entry, EntryData, EntryModel};
use crate::text::{decode_lossy, shown_name};

verus! {

/// The vertical bar drawn once per level of depth.
pub const BAR: char = '\u{2502}';

/// The connector in front of every child but the last.
pub const TEE: char = '\u{251c}';

/// The connector in front of the last child.
pub const CORNER: char = '\u{2514}';

/// `depth` repetitions of a space and a vertical bar.
pub open spec fn bars(depth: nat) -> Seq<char>
    decreases depth,
{
    if depth == 0 {
        Seq::empty()
    } else {
        bars((depth - 1) as nat) + seq![' ', BAR]
    }
}

/// The connector of an entry: nothing at depth 0, else a space and the
/// corner for a last child or the tee for any other.
pub open spec fn connector(depth: nat, is_last: bool) -> Seq<char> {
    if depth == 0 {
        Seq::empty()
    } else if is_last {
        seq![' ', CORNER]
    } else {
        seq![' ', TEE]
    }
}

/// One line: bars, connector, label, line break.
pub open spec fn line_text(label: Seq<char>, depth: nat, is_last: bool) -> Seq<char> {
    bars(depth) + connector(depth, is_last) + label + seq!['\n']
}

/// The text of `entry` at `depth`: its own line, then its children in stored
/// order, one level deeper.
pub open spec fn rendering(entry: EntryModel, depth: nat, is_last: bool) -> Seq<char>
    decreases entry, 0nat,
{
    line_text(shown_name(entry.name), depth, is_last) + match entry.data {
        DataModel::Directory(children) => children_text(children, depth + 1, children.len()),
        _ => Seq::empty(),
    }
}

/// The text of the first `count` of `children`, each at `depth`; a child is
/// drawn as the last one exactly when it ends the whole sequence.
pub open spec fn children_text(children: Seq<EntryModel>, depth: nat, count: nat) -> Seq<char>
    decreases children, count,
{
    if count == 0 || count > children.len() {
        Seq::empty()
    } else {
        children_text(children, depth, (count - 1) as nat) + rendering(
            children[count - 1],
            depth,
            count == children.len(),
        )
    }
}

/// Appends one line to `out`: the bars in `lead`, the connector if the
/// line is `nested` below the root, the label and a line break.
fn push_line(
    out: &mut String,
    lead: &str,
    nested: bool,
    is_last: bool,
    label: &str,
    Ghost(depth): Ghost<nat>,
)
    requires
        lead@ == bars(depth),
        nested == (depth > 0),
    ensures
        final(out)@ == old(out)@ + line_text(label@, depth, is_last),
{
    out.append(lead);
    if nested {
        if is_last {
            proof {
                reveal_strlit(" \u{2514}");
            }
            out.append(" \u{2514}");
        } else {
            proof {
                reveal_strlit(" \u{251c}");
            }
            out.append(" \u{251c}");
        }
    }
    out.append(label);
    proof {
        reveal_strlit("\n");
    }
    out.append("\n");
    assert(out@ =~= old(out)@ + line_text(label@, depth, is_last));
}

/// Appends the text of `entry` to `out`. The depth is not counted: `lead`
/// holds the bars of the entry's depth, and each level adds one bar to it.
fn render_into(
    entry: &Entry,
    lead: &str,
    nested: bool,
    is_last: bool,
    out: &mut String,
    Ghost(depth): Ghost<nat>,
)
    requires
        lead@ == bars(depth),
        nested == (depth > 0),
    ensures
        final(out)@ == old(out)@ + rendering(entry@, depth, is_last),
    decreases entry,
{
    let label = decode_lossy(entry.name.as_slice());
    push_line(out, lead, nested, is_last, label.as_str(), Ghost(depth));
    match &entry.data {
        EntryData::Directory(children) => {
            let mut deeper = String::from_str(lead);
            proof {
                reveal_strlit(" \u{2502}");
            }
            deeper.append(" \u{2502}");
            assert(deeper@ =~= bars(depth + 1));
            let ghost own = line_text(shown_name(entry.name@), depth, is_last);
            let ghost models = entry@.data->Directory_0;
            let count: usize = children.len();
            proof {
                entry.lemma_directory_view();
            }
            let mut i: usize = 0;
            while i < count
                invariant
                    i <= count,
                    count == children.len(),
                    entry.data == EntryData::Directory(*children),
                    models.len() == count,
                    forall|k: int| 0 <= k < count ==> models[k] == children[k]@,
                    deeper@ == bars(depth + 1),
                    out@ == old(out)@ + own + children_text(models, depth + 1, i as nat),
                decreases count - i,
            {
                let child = &children[i];
                assert(decreases_to!(entry => entry.data->Directory_0[i as int]));
                render_into(child, deeper.as_str(), true, i + 1 == count, out, Ghost(depth + 1));
                i = i + 1;
                assert(out@ =~= old(out)@ + own + children_text(models, depth + 1, i as nat));
            }
            assert(out@ =~= old(out)@ + rendering(entry@, depth, is_last));
        },
        _ => {
            assert(out@ =~= old(out)@ + rendering(entry@, depth, is_last));
        },
    }
}

/// Renders the line of one entry whose name reads `label`, at `depth` below
/// the root, as the last child or not.
pub fn render_line(label: &str, depth: usize, is_last: bool) -> (text: String)
    ensures
        text@ == line_text(label@, depth as nat, is_last),
{
    let mut lead = String::new();
    let mut level: usize = 0;
    while level < depth
        invariant
            level <= depth,
            lead@ == bars(level as nat),
        decreases depth - level,
    {
        proof {
            reveal_strlit(" \u{2502}");
        }
        lead.append(" \u{2502}");
        level = level + 1;
        assert(lead@ =~= bars(level as nat));
    }
    let mut text = String::new();
    push_line(&mut text, lead.as_str(), depth > 0, is_last, label, Ghost(depth as nat));
    assert(text@ =~= line_text(label@, depth as nat, is_last));
    text
}

/// Renders `entry` as the root of a tree: one line per entry, depth first,
/// children in stored order.
pub fn render(entry: &Entry) -> (text: String)
    ensures
        text@ == rendering(entry@, 0, true),
{
    let mut out = String::new();
    proof {
        reveal_strlit("");
        assert(""@ =~= bars(0));
    }
    render_into(entry, "", false, true, &mut out, Ghost(0));
    out
}

/// Bars take two characters for each level: a space, then the bar.
pub proof fn lemma_bars(depth: nat)
    ensures
        bars(depth).len() == 2 * depth,
        forall|j: int|
            0 <= j < 2 * depth ==> #[trigger] bars(depth)[j] == (if j % 2 == 0 {
                ' '
            } else {
                BAR
            }),
    decreases depth,
{
    if depth > 0 {
        lemma_bars((depth - 1) as nat);
    }
}

/// Where the connector glyph stands in a line at `depth`: after the bars
/// and the connector's own space.
pub open spec fn glyph_index(depth: nat) -> int {
    2 * (depth as int) + 1
}

/// A line below the root carries its connector right after the bars: the
/// corner if it is drawn as a last child, the tee if not.
pub proof fn lemma_line_connector(label: Seq<char>, depth: nat, is_last: bool)
    requires
        depth > 0,
    ensures
        line_text(label, depth, is_last).len() == 2 * depth + 2 + label.len() + 1,
        line_text(label, depth, is_last)[glyph_index(depth) - 1] == ' ',
        line_text(label, depth, is_last)[glyph_index(depth)] == (if is_last {
            CORNER
        } else {
            TEE
        }),
{
    lemma_bars(depth);
}

/// The text of the first `count` children is made of the text of each, in
/// order: child `i` stands right after the text of the `i` children before it.
pub proof fn lemma_children_text_holds_child(
    children: Seq<EntryModel>,
    depth: nat,
    count: nat,
    i: int,
)
    requires
        0 <= i < count <= children.len(),
    ensures
        ({
            let text = children_text(children, depth, count);
            let start = children_text(children, depth, i as nat).len() as int;
            let child = rendering(children[i], depth, i == children.len() - 1);
            &&& start + child.len() <= text.len()
            &&& text.subrange(start, start + child.len()) == child
        }),
    decreases count,
{
    let text = children_text(children, depth, count);
    let before = children_text(children, depth, (count - 1) as nat);
    if i == count - 1 {
        assert(text.subrange(before.len() as int, text.len() as int) =~= rendering(
            children[i],
            depth,
            i == children.len() - 1,
        ));
    } else {
        lemma_children_text_holds_child(children, depth, (count - 1) as nat, i);
        let start = children_text(children, depth, i as nat).len() as int;
        let child = rendering(children[i], depth, i == children.len() - 1);
        assert(text.subrange(start, start + child.len()) =~= before.subrange(
            start,
            start + child.len(),
        ));
    }
}

/// Where the text of child `i` begins in the text of the directory `entry`
/// drawn at `depth`: after the directory's own line and the text of the `i`
/// children before it.
pub open spec fn child_start(entry: EntryModel, depth: nat, is_last: bool, i: int) -> int
    recommends
        entry.data is Directory,
        0 <= i < entry.data->Directory_0.len(),
{
    line_text(shown_name(entry.name), depth, is_last).len() as int + children_text(
        entry.data->Directory_0,
        depth + 1,
        i as nat,
    ).len()
}

/// In the text of a directory, the line of each child but the last carries
/// the tee and the line of the last child carries the corner: the text of
/// child `i` stands, whole and drawn as last only if it is the last, at its
/// place, and its connector follows the bars of its depth.
pub proof fn lemma_last_child_connector(entry: EntryModel, depth: nat, is_last: bool, i: int)
    requires
        entry.data is Directory,
        0 <= i < entry.data->Directory_0.len(),
    ensures
        ({
            let children = entry.data->Directory_0;
            let text = rendering(entry, depth, is_last);
            let start = child_start(entry, depth, is_last, i);
            let child = rendering(children[i], depth + 1, i == children.len() - 1);
            &&& start + child.len() <= text.len()
            &&& text.subrange(start, start + child.len()) == child
            &&& glyph_index(depth + 1) < child.len()
            &&& text[start + glyph_index(depth + 1)] == (if i == children.len() - 1 {
                CORNER
            } else {
                TEE
            })
        }),
{
    let children = entry.data->Directory_0;
    let own = line_text(shown_name(entry.name), depth, is_last);
    let below = children_text(children, depth + 1, children.len());
    let text = rendering(entry, depth, is_last);
    let offset = children_text(children, depth + 1, i as nat).len() as int;
    let start = child_start(entry, depth, is_last, i);
    let child = rendering(children[i], depth + 1, i == children.len() - 1);
    let at = glyph_index(depth + 1);
    lemma_children_text_holds_child(children, depth + 1, children.len(), i);
    lemma_line_connector(shown_name(children[i].name), depth + 1, i == children.len() - 1);
    assert(text.subrange(start, start + child.len()) =~= below.subrange(
        offset,
        offset + child.len(),
    ));
    let line = line_text(shown_name(children[i].name), depth + 1, i == children.len() - 1);
    assert(child.subrange(0, line.len() as int) =~= line);
    assert(child[at] == line[at]);
    assert(text[start + at] == text.subrange(start, start + child.len())[at]);
}

/// Rendering is a function of the tree: equal trees have equal text.
pub proof fn lemma_rendering_determined(first: Entry, second: Entry)
    requires
        first@ == second@,
    ensures
        rendering(first@, 0, true) == rendering(second@, 0, true),
{
}

} // verus!
