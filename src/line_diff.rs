use similar::{ChangeTag, TextDiff};
use vstd::prelude::*;

verus! {

/// How a line fares between the before and the after text.
pub enum LineTag {
    Delete,
    Insert,
    Equal,
}

/// One line of a line diff, with its tag.
pub struct LineChange {
    pub tag: LineTag,
    pub text: String,
}

/// The changes a line diff of `before` into `after` reports, in order.
pub uninterp spec fn line_diff_of(before: Seq<char>, after: Seq<char>) -> Seq<(LineTag, Seq<char>)>;

pub open spec fn changes_view(cs: Seq<LineChange>) -> Seq<(LineTag, Seq<char>)> {
    cs.map_values(|c: LineChange| (c.tag, c.text@))
}

/// Relies on similar's TextDiff::from_lines and iter_all_changes: the
/// changes, in the algorithm's order, each rendered by its `Display`.
#[verifier::external_body]
fn line_changes(before: &str, after: &str) -> (r: Vec<LineChange>)
    ensures
        changes_view(r@) == line_diff_of(before@, after@),
{
    let diff = TextDiff::from_lines(before, after);
    diff.iter_all_changes().map(|c| LineChange {
        tag: match c.tag() {
            ChangeTag::Delete => LineTag::Delete,
            ChangeTag::Insert => LineTag::Insert,
            ChangeTag::Equal => LineTag::Equal,
        },
        text: c.to_string(),
    }).collect()
}

/// The mark that starts a rendered line.
pub open spec fn sign(t: LineTag) -> char {
    match t {
        LineTag::Delete => '-',
        LineTag::Insert => '+',
        LineTag::Equal => ' ',
    }
}

/// The changes rendered one per line, each after its mark, joined by
/// newlines.
pub open spec fn rendered(cs: Seq<(LineTag, Seq<char>)>) -> Seq<char>
    decreases cs.len(),
{
    if cs.len() == 0 {
        Seq::empty()
    } else if cs.len() == 1 {
        seq![sign(cs[0].0)] + cs[0].1
    } else {
        rendered(cs.drop_last()) + seq!['\n', sign(cs.last().0)] + cs.last().1
    }
}

/// Renders a list of line changes as diff text.
pub fn render_changes(cs: &Vec<LineChange>) -> (r: String)
    ensures
        r@ == rendered(changes_view(cs@)),
{
    let mut r = String::new();
    let mut i: usize = 0;
    while i < cs.len()
        invariant
            i <= cs.len(),
            r@ == rendered(changes_view(cs@.subrange(0, i as int))),
        decreases cs.len() - i,
    {
        proof {
            reveal_strlit("\n");
            reveal_strlit("-");
            reveal_strlit("+");
            reveal_strlit(" ");
        }
        let ghost before = r@;
        let ghost prefix = changes_view(cs@.subrange(0, i as int + 1));
        assert(prefix.drop_last() =~= changes_view(cs@.subrange(0, i as int)));
        if i > 0 {
            r.append("\n");
        }
        match cs[i].tag {
            LineTag::Delete => r.append("-"),
            LineTag::Insert => r.append("+"),
            LineTag::Equal => r.append(" "),
        }
        r.append(cs[i].text.as_str());
        if i > 0 {
            assert(r@ =~= before + seq!['\n', sign(cs@[i as int].tag)] + cs@[i as int].text@);
        } else {
            assert(r@ =~= seq![sign(cs@[i as int].tag)] + cs@[i as int].text@);
        }
        i = i + 1;
    }
    assert(cs@.subrange(0, cs.len() as int) =~= cs@);
    r
}

/// The diff text that turns `before` into `after`, line by line.
pub fn diff_text(before: &str, after: &str) -> (r: String)
    ensures
        r@ == rendered(line_diff_of(before@, after@)),
{
    let cs = line_changes(before, after);
    render_changes(&cs)
}

} // verus!
