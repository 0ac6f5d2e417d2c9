use vstd::prelude::*;
use crate::builder::NodeHandle;
use crate::config::{Config, Status};
use crate::review::Reviews;
use crate::text::{push_decimal, spec_decimal};
use crate::tree::UITree;
use crate::ui::Widget;
use crate::textbox::{spec_string_lines, spec_text_lines};

verus! {

/// A named piece of text for the report: a review (named by its status) or
/// a field (named by the field's name), with its lines of text.
pub struct ReportEntry {
    pub name: String,
    pub lines: Vec<String>,
}

/// The lines joined by line breaks.
pub open spec fn spec_join_lines(lines: Seq<Seq<char>>) -> Seq<char>
    decreases lines.len(),
{
    if lines.len() == 0 {
        seq![]
    } else if lines.len() == 1 {
        lines[0]
    } else {
        spec_join_lines(lines.drop_last()) + seq!['\n'] + lines.last()
    }
}

/// How many of the reviews have the status `name`.
pub open spec fn spec_count_status(reviews: Seq<ReportEntry>, name: Seq<char>) -> nat
    decreases reviews.len(),
{
    if reviews.len() == 0 {
        0
    } else {
        spec_count_status(reviews.drop_last(), name) + if reviews.last().name@ == name { 1nat } else { 0nat }
    }
}

/// For each status, in order and separated by spaces: how many reviews
/// have it, then its name.
pub open spec fn spec_counts_line(statuses: Seq<Status>, reviews: Seq<ReportEntry>) -> Seq<char>
    decreases statuses.len(),
{
    if statuses.len() == 0 {
        seq![]
    } else {
        let last = statuses.last();
        spec_counts_line(statuses.drop_last(), reviews) + (if statuses.len() > 1 { seq![' '] } else { seq![] })
            + spec_decimal(spec_count_status(reviews, last.name@)) + seq![' '] + last.name@
    }
}

/// One line per review: `VM`, its number counted from 1, its status and its
/// message.
pub open spec fn spec_review_lines(reviews: Seq<ReportEntry>) -> Seq<char>
    decreases reviews.len(),
{
    if reviews.len() == 0 {
        seq![]
    } else {
        let last = reviews.last();
        spec_review_lines(reviews.drop_last()) + seq!['V', 'M'] + spec_decimal(reviews.len()) + seq![' '] + last.name@
            + seq![' '] + spec_join_lines(spec_string_lines(last.lines@)) + seq!['\n']
    }
}

/// For each field: an empty line, then its name, a colon and its text.
pub open spec fn spec_field_lines(fields: Seq<ReportEntry>) -> Seq<char>
    decreases fields.len(),
{
    if fields.len() == 0 {
        seq![]
    } else {
        let last = fields.last();
        spec_field_lines(fields.drop_last()) + seq!['\n'] + last.name@ + seq![':', ' '] + spec_join_lines(
            spec_string_lines(last.lines@),
        ) + seq!['\n']
    }
}

/// The report: the counts of each status, the reviews, an empty line, and
/// the fields.
pub open spec fn spec_report(statuses: Seq<Status>, reviews: Seq<ReportEntry>, fields: Seq<ReportEntry>) -> Seq<char> {
    spec_counts_line(statuses, reviews) + seq!['\n'] + spec_review_lines(reviews) + seq!['\n'] + spec_field_lines(fields)
}

/// Appends the lines joined by line breaks.
pub fn push_joined_lines(out: &mut String, lines: &Vec<String>)
    ensures
        final(out)@ == old(out)@ + spec_join_lines(spec_string_lines(lines@)),
{
    let ghost start = out@;
    let mut i: usize = 0;
    while i < lines.len()
        invariant
            i <= lines.len(),
            out@ == start + spec_join_lines(spec_string_lines(lines@.take(i as int))),
        decreases lines.len() - i,
    {
        proof {
            reveal_strlit("\n");
            assert(spec_string_lines(lines@.take(i + 1)).drop_last() =~= spec_string_lines(lines@.take(i as int)));
        }
        if i > 0 {
            out.append("\n");
        }
        out.append(lines[i].as_str());
        proof {
            if i == 0 {
                assert(spec_string_lines(lines@.take(1)) =~= seq![lines@[0]@]);
            }
        }
        i = i + 1;
    }
    assert(lines@.take(lines@.len() as int) =~= lines@);
}

/// How many of the reviews have the status `name`.
pub fn count_status(reviews: &Vec<ReportEntry>, name: &String) -> (r: usize)
    ensures
        r == spec_count_status(reviews@, name@),
{
    let mut count: usize = 0;
    let mut i: usize = 0;
    while i < reviews.len()
        invariant
            i <= reviews.len(),
            count == spec_count_status(reviews@.take(i as int), name@),
            count <= i,
        decreases reviews.len() - i,
    {
        assert(reviews@.take(i + 1).drop_last() =~= reviews@.take(i as int));
        if reviews[i].name == *name {
            count = count + 1;
        }
        i = i + 1;
    }
    assert(reviews@.take(reviews@.len() as int) =~= reviews@);
    count
}

/// Builds the report from the statuses, the reviews and the fields.
pub fn format_report(statuses: &Vec<Status>, reviews: &Vec<ReportEntry>, fields: &Vec<ReportEntry>) -> (r: String)
    ensures
        r@ == spec_report(statuses@, reviews@, fields@),
{
    proof {
        reveal_strlit(" ");
        reveal_strlit("\n");
        reveal_strlit("VM");
        reveal_strlit(": ");
    }
    let mut res = String::new();
    let mut i: usize = 0;
    while i < statuses.len()
        invariant
            i <= statuses.len(),
            res@ == spec_counts_line(statuses@.take(i as int), reviews@),
        decreases statuses.len() - i,
    {
        proof {
            reveal_strlit(" ");
        }
        let ghost before = res@;
        assert(statuses@.take(i + 1).drop_last() =~= statuses@.take(i as int));
        assert(statuses@.take(i + 1).last() == statuses@[i as int]);
        if i > 0 {
            res.append(" ");
        }
        let ghost sep = if i > 0 { seq![' '] } else { Seq::<char>::empty() };
        assert(res@ =~= before + sep);
        let count = count_status(reviews, &statuses[i].name);
        push_decimal(&mut res, count);
        res.append(" ");
        res.append(statuses[i].name.as_str());
        assert(res@ =~= before + sep + spec_decimal(count as nat) + seq![' '] + statuses@[i as int].name@);
        i = i + 1;
    }
    assert(statuses@.take(statuses@.len() as int) =~= statuses@);
    res.append("\n");
    let ghost head = res@;
    let mut j: usize = 0;
    while j < reviews.len()
        invariant
            j <= reviews.len(),
            res@ == head + spec_review_lines(reviews@.take(j as int)),
        decreases reviews.len() - j,
    {
        proof {
            reveal_strlit(" ");
            reveal_strlit("\n");
            reveal_strlit("VM");
        }
        let ghost before = res@;
        assert(reviews@.take(j + 1).drop_last() =~= reviews@.take(j as int));
        assert(reviews@.take(j + 1).last() == reviews@[j as int]);
        res.append("VM");
        push_decimal(&mut res, j + 1);
        res.append(" ");
        res.append(reviews[j].name.as_str());
        res.append(" ");
        push_joined_lines(&mut res, &reviews[j].lines);
        res.append("\n");
        assert(res@ =~= before + (seq!['V', 'M'] + spec_decimal((j + 1) as nat) + seq![' '] + reviews@[j as int].name@
            + seq![' '] + spec_join_lines(spec_string_lines(reviews@[j as int].lines@)) + seq!['\n']));
        j = j + 1;
    }
    assert(reviews@.take(reviews@.len() as int) =~= reviews@);
    res.append("\n");
    let ghost middle = res@;
    let mut k: usize = 0;
    while k < fields.len()
        invariant
            k <= fields.len(),
            res@ == middle + spec_field_lines(fields@.take(k as int)),
        decreases fields.len() - k,
    {
        proof {
            reveal_strlit("\n");
            reveal_strlit(": ");
        }
        let ghost before = res@;
        assert(fields@.take(k + 1).drop_last() =~= fields@.take(k as int));
        assert(fields@.take(k + 1).last() == fields@[k as int]);
        res.append("\n");
        res.append(fields[k].name.as_str());
        res.append(": ");
        push_joined_lines(&mut res, &fields[k].lines);
        res.append("\n");
        assert(res@ =~= before + (seq!['\n'] + fields@[k as int].name@ + seq![':', ' '] + spec_join_lines(
            spec_string_lines(fields@[k as int].lines@),
        ) + seq!['\n']));
        k = k + 1;
    }
    assert(fields@.take(fields@.len() as int) =~= fields@);
    res
}

/// The report entries of the reviews: each review's status and the lines
/// of its message.
pub fn review_entries(reviews: &Reviews) -> (r: Vec<ReportEntry>)
    ensures
        r@.len() == reviews@.reviews.len(),
        forall|i: int| 0 <= i < r@.len() ==> (#[trigger] r@[i]).name@ == reviews@.reviews[i].status@,
        forall|i: int| 0 <= i < r@.len()
            ==> spec_string_lines((#[trigger] r@[i]).lines@) == spec_text_lines(reviews@.reviews[i].message.text),
{
    let list = reviews.reviews();
    let mut entries: Vec<ReportEntry> = Vec::new();
    let mut i: usize = 0;
    while i < list.len()
        invariant
            i <= list.len(),
            list@ == reviews@.reviews,
            entries@.len() == i,
            forall|k: int| 0 <= k < i ==> (#[trigger] entries@[k]).name@ == list@[k].status@,
            forall|k: int| 0 <= k < i
                ==> spec_string_lines((#[trigger] entries@[k]).lines@) == spec_text_lines(list@[k].message.text),
        decreases list.len() - i,
    {
        let review = &list[i];
        entries.push(ReportEntry { name: review.status.clone(), lines: review.message.lines() });
        i = i + 1;
    }
    entries
}

/// The handles name a reviews grid and, for each configured field that has
/// a handle, a text input.
pub open spec fn spec_handles_fit(config: &Config, tree: &UITree, reviews: NodeHandle, fields: Seq<NodeHandle>) -> bool {
    &&& reviews.index < tree@.nodes.len()
    &&& tree@.nodes[reviews.index as int].widget is Reviews
    &&& forall|k: int|
        0 <= k < fields.len() && k < config.field@.len() ==> {
            &&& (#[trigger] fields[k]).index < tree@.nodes.len()
            &&& tree@.nodes[fields[k].index as int].widget is Text
        }
}

/// The final report of a session: the status counts and the reviews of the
/// reviews grid, then each configured field (paired in order with the
/// handles, as far as both go) with the text typed into it. None where the
/// handles do not name widgets of those kinds.
pub fn report(config: &Config, tree: &UITree, reviews: NodeHandle, fields: &Vec<NodeHandle>) -> (r: Option<String>)
    ensures
        r is Some <==> spec_handles_fit(config, tree, reviews, fields@),
        r matches Some(text) ==> exists|review_list: Seq<ReportEntry>, field_list: Seq<ReportEntry>|
            #![trigger spec_report(config.status@, review_list, field_list)]
            {
                &&& tree@.nodes[reviews.index as int].widget matches Widget::Reviews(grid)
                &&& review_list.len() == grid@.reviews.len()
                &&& forall|i: int| 0 <= i < review_list.len() ==> {
                    &&& (#[trigger] review_list[i]).name@ == grid@.reviews[i].status@
                    &&& spec_string_lines(review_list[i].lines@) == spec_text_lines(grid@.reviews[i].message.text)
                }
                &&& field_list.len() == if fields@.len() <= config.field@.len() { fields@.len() } else { config.field@.len() }
                &&& forall|k: int| 0 <= k < field_list.len() ==> {
                    &&& (#[trigger] field_list[k]).name@ == config.field@[k].name@
                    &&& tree@.nodes[fields@[k].index as int].widget matches Widget::Text(t)
                    &&& spec_string_lines(field_list[k].lines@) == spec_text_lines(t.text)
                }
                &&& text@ == spec_report(config.status@, review_list, field_list)
            },
{
    if reviews.index >= tree.len() {
        return None;
    }
    let review_list = match &tree.node(reviews.index).widget {
        Widget::Reviews(grid) => review_entries(grid),
        Widget::Text(_) => return None,
    };
    let count = if fields.len() <= config.field.len() { fields.len() } else { config.field.len() };
    let mut field_list: Vec<ReportEntry> = Vec::new();
    let mut k: usize = 0;
    while k < count
        invariant
            k <= count,
            count <= fields@.len(),
            count <= config.field@.len(),
            count == fields@.len() || count == config.field@.len(),
            field_list@.len() == k,
            forall|j: int| 0 <= j < k ==> {
                &&& (#[trigger] field_list@[j]).name@ == config.field@[j].name@
                &&& tree@.nodes[fields@[j].index as int].widget matches Widget::Text(t)
                &&& spec_string_lines(field_list@[j].lines@) == spec_text_lines(t.text)
            },
            forall|j: int| 0 <= j < k ==> {
                &&& (#[trigger] fields@[j]).index < tree@.nodes.len()
                &&& tree@.nodes[fields@[j].index as int].widget is Text
            },
        decreases count - k,
    {
        let handle = fields[k];
        if handle.index >= tree.len() {
            return None;
        }
        match &tree.node(handle.index).widget {
            Widget::Text(text) => {
                field_list.push(ReportEntry { name: config.field[k].name.clone(), lines: text.lines() });
            },
            Widget::Reviews(_) => return None,
        }
        k = k + 1;
    }
    Some(format_report(&config.status, &review_list, &field_list))
}

} // verus!
