//! The first diagram format: one box per line, indented two spaces a level.
//! A box three levels down that has boxes of its own is written as a
//! numbered reference, and the group it stands for follows as a block of
//! its own; groups are numbered in the order they are first referred to.
use vstd::prelude::*;
use crate::file_document::{FileBox, FileBoxModel, FileDoc, file_model, file_models};
use crate::text::{decimal, owned, push_char, push_decimal, push_str};

verus! {

/// One level of indentation.
pub const INDENT: &'static str = "  ";

/// A character of a label as it is written between quotes.
pub open spec fn escaped(c: char) -> Seq<char> {
    if c == '\\' {
        seq!['\\', '\\']
    } else if c == '"' {
        seq!['\\', '"']
    } else {
        seq![c]
    }
}

pub open spec fn escape_spec(s: Seq<char>) -> Seq<char>
    decreases s.len(),
{
    if s.len() == 0 {
        Seq::empty()
    } else {
        escape_spec(s.drop_last()) + escaped(s.last())
    }
}

/// A label in double quotes, with its backslashes and quotes escaped.
pub open spec fn quote_spec(s: Seq<char>) -> Seq<char> {
    seq!['"'] + escape_spec(s) + seq!['"']
}

/// A label in double quotes, with its backslashes and quotes escaped.
pub fn quote(label: &str) -> (r: String)
    ensures
        r@ == quote_spec(label@),
{
    let chars = crate::text::chars_of(label);
    let mut r = owned("\"");
    proof {
        reveal_strlit("\"");
        assert(chars@.take(0) =~= Seq::<char>::empty());
    }
    let mut i: usize = 0;
    while i < chars.len()
        invariant
            i <= chars.len(),
            chars@ == label@,
            r@ == seq!['"'] + escape_spec(chars@.take(i as int)),
        decreases chars.len() - i,
    {
        let c = chars[i];
        if c == '\\' {
            push_char(&mut r, '\\');
            push_char(&mut r, '\\');
        } else if c == '"' {
            push_char(&mut r, '\\');
            push_char(&mut r, '"');
        } else {
            push_char(&mut r, c);
        }
        proof {
            let t = chars@.take(i + 1);
            assert(t.drop_last() =~= chars@.take(i as int));
            assert(t.last() == c);
            assert(r@ =~= seq!['"'] + escape_spec(t));
        }
        i = i + 1;
    }
    push_char(&mut r, '"');
    proof {
        assert(chars@.take(i as int) =~= label@);
    }
    r
}

/// A box's line: its quoted label, then its colour, fill and rounding when
/// they are not the defaults.
pub open spec fn line_spec(b: FileBoxModel) -> Seq<char> {
    quote_spec(b.label) + match b.colour {
        Some(c) => " colour="@ + decimal(c as nat),
        None => Seq::empty(),
    } + match b.fill {
        Some(f) => " fill="@ + decimal(f as nat),
        None => Seq::empty(),
    } + if b.rounded {
        " rounded"@
    } else {
        Seq::empty()
    }
}

fn push_line(out: &mut String, node: &FileBox)
    ensures
        final(out)@ == old(out)@ + line_spec(file_model(*node)),
{
    let q = quote(node.label.as_str());
    push_str(out, q.as_str());
    match node.colour {
        Some(c) => {
            push_str(out, " colour=");
            push_decimal(out, c as u64);
        },
        None => {},
    }
    match node.fill {
        Some(f) => {
            push_str(out, " fill=");
            push_decimal(out, f as u64);
        },
        None => {},
    }
    if node.rounded {
        push_str(out, " rounded");
    }
    proof {
        let b = file_model(*node);
        assert(final(out)@ =~= old(out)@ + line_spec(b));
    }
}

/// A box three levels down that is written as a reference: one with boxes
/// of its own.
pub open spec fn is_group(b: FileBoxModel) -> bool {
    b.children.len() > 0
}

pub open spec fn group_filter() -> spec_fn(FileBoxModel) -> bool {
    |b: FileBoxModel| is_group(b)
}

/// The groups that a list of boxes' children refer to, in order.
pub open spec fn refs_of(cs: Seq<FileBoxModel>) -> Seq<FileBoxModel>
    decreases cs.len(),
{
    if cs.len() == 0 {
        Seq::empty()
    } else {
        refs_of(cs.drop_last()) + cs.last().children.filter(group_filter())
    }
}

/// The line of a box three levels down: a reference numbered `n`, or the
/// box itself.
pub open spec fn grand_row(g: FileBoxModel, n: nat) -> Seq<char> {
    "    "@ + if is_group(g) {
        seq!['@'] + decimal(n)
    } else {
        line_spec(g)
    } + seq!['\n']
}

pub open spec fn grand_rows(gs: Seq<FileBoxModel>, first: nat) -> Seq<char>
    decreases gs.len(),
{
    if gs.len() == 0 {
        Seq::empty()
    } else {
        grand_rows(gs.drop_last(), first) + grand_row(
            gs.last(),
            first + gs.drop_last().filter(group_filter()).len(),
        )
    }
}

pub open spec fn child_text(c: FileBoxModel, first: nat) -> Seq<char> {
    INDENT@ + line_spec(c) + seq!['\n'] + grand_rows(c.children, first)
}

pub open spec fn children_rows(cs: Seq<FileBoxModel>, first: nat) -> Seq<char>
    decreases cs.len(),
{
    if cs.len() == 0 {
        Seq::empty()
    } else {
        children_rows(cs.drop_last(), first) + child_text(cs.last(), first + refs_of(cs.drop_last()).len())
    }
}

/// A block: its header, the box's line, its children's lines and its
/// grandchildren's, references numbered from `first`.
pub open spec fn block_spec(b: FileBoxModel, header: Seq<char>, first: nat) -> Seq<char> {
    header + line_spec(b) + seq!['\n'] + children_rows(b.children, first)
}

/// How many boxes a box and everything under it make.
pub open spec fn size(b: FileBoxModel) -> nat
    decreases b,
{
    1 + weight(b.children)
}

pub open spec fn weight(bs: Seq<FileBoxModel>) -> nat
    decreases bs,
{
    if bs.len() == 0 {
        0
    } else {
        weight(bs.drop_last()) + size(bs.last())
    }
}

proof fn lemma_weight_concat(a: Seq<FileBoxModel>, b: Seq<FileBoxModel>)
    ensures
        weight(a + b) == weight(a) + weight(b),
    decreases b.len(),
{
    if b.len() == 0 {
        assert(a + b =~= a);
    } else {
        lemma_weight_concat(a, b.drop_last());
        assert((a + b).drop_last() =~= a + b.drop_last());
    }
}

proof fn lemma_weight_filter(bs: Seq<FileBoxModel>, f: spec_fn(FileBoxModel) -> bool)
    ensures
        weight(bs.filter(f)) <= weight(bs),
    decreases bs.len(),
{
    reveal(Seq::filter);
    if bs.len() > 0 {
        lemma_weight_filter(bs.drop_last(), f);
        if f(bs.last()) {
            assert(bs.drop_last().filter(f).push(bs.last()).drop_last() =~= bs.drop_last().filter(f));
        }
    }
}

proof fn lemma_refs_weight(cs: Seq<FileBoxModel>)
    ensures
        weight(refs_of(cs)) + cs.len() <= weight(cs),
    decreases cs.len(),
{
    if cs.len() > 0 {
        let d = cs.drop_last();
        lemma_refs_weight(d);
        lemma_weight_concat(refs_of(d), cs.last().children.filter(group_filter()));
        lemma_weight_filter(cs.last().children, group_filter());
        assert(refs_of(cs) == refs_of(d) + cs.last().children.filter(group_filter()));
        assert(weight(cs) == weight(d) + size(cs.last()));
        assert(size(cs.last()) == 1 + weight(cs.last().children));
    }
}

/// Writing a group's block replaces it among the groups still to be
/// written by groups strictly smaller than it.
pub proof fn lemma_queue_shrinks(pending: Seq<FileBoxModel>)
    requires
        pending.len() > 0,
    ensures
        weight(pending.drop_first() + refs_of(pending[0].children)) < weight(pending),
{
    let g = pending[0];
    lemma_refs_weight(g.children);
    assert(size(g) == 1 + weight(g.children));
    lemma_weight_concat(seq![g], pending.drop_first());
    assert(seq![g] + pending.drop_first() =~= pending);
    lemma_weight_concat(pending.drop_first(), refs_of(g.children));
    assert(seq![g].drop_last() =~= Seq::<FileBoxModel>::empty());
}

/// The blocks of the groups still to be written, the first numbered `k`,
/// the references they make numbered from `next`.
pub open spec fn group_blocks(pending: Seq<FileBoxModel>, k: nat, next: nat) -> Seq<Seq<char>>
    decreases weight(pending),
{
    if pending.len() == 0 {
        Seq::empty()
    } else {
        let g = pending[0];
        let refs = refs_of(g.children);
        proof {
            lemma_queue_shrinks(pending);
        }
        seq![block_spec(g, seq!['@'] + decimal(k) + seq![' '], next)] + group_blocks(
            pending.drop_first() + refs,
            k + 1,
            next + refs.len(),
        )
    }
}

/// The groups that the blocks of top-level boxes refer to, in order.
pub open spec fn forest_refs(bs: Seq<FileBoxModel>) -> Seq<FileBoxModel>
    decreases bs.len(),
{
    if bs.len() == 0 {
        Seq::empty()
    } else {
        forest_refs(bs.drop_last()) + refs_of(bs.last().children)
    }
}

/// The blocks of the top-level boxes, in order.
pub open spec fn top_blocks(bs: Seq<FileBoxModel>) -> Seq<Seq<char>>
    decreases bs.len(),
{
    if bs.len() == 0 {
        Seq::empty()
    } else {
        top_blocks(bs.drop_last()).push(block_spec(bs.last(), Seq::empty(), 1 + forest_refs(bs.drop_last()).len()))
    }
}

/// Blocks one after the other, a blank line between two.
pub open spec fn join_spec(blocks: Seq<Seq<char>>) -> Seq<char>
    decreases blocks.len(),
{
    if blocks.len() == 0 {
        Seq::empty()
    } else if blocks.len() == 1 {
        blocks[0]
    } else {
        join_spec(blocks.drop_last()) + seq!['\n'] + blocks.last()
    }
}

/// The text of a diagram: the top-level boxes' blocks, then the groups'.
pub open spec fn write_spec(bs: Seq<FileBoxModel>) -> Seq<char> {
    join_spec(top_blocks(bs) + group_blocks(forest_refs(bs), 1, 1 + forest_refs(bs).len()))
}

pub open spec fn refs_view(v: Seq<&FileBox>) -> Seq<FileBoxModel> {
    v.map_values(|r: &FileBox| file_model(*r))
}

proof fn lemma_refs_view_push(v: Seq<&FileBox>, b: &FileBox)
    ensures
        refs_view(v.push(b)) == refs_view(v).push(file_model(*b)),
{
    assert(refs_view(v.push(b)) =~= refs_view(v).push(file_model(*b)));
}

fn write_grand<'a>(out: &mut String, gs: &'a Vec<FileBox>, pending: &mut Vec<&'a FileBox>)
    ensures
        final(out)@ == old(out)@ + grand_rows(file_models(gs@), (old(pending)@.len() + 1) as nat),
        refs_view(final(pending)@) == refs_view(old(pending)@) + file_models(gs@).filter(group_filter()),
{
    let ghost start = out@;
    let ghost before = refs_view(pending@);
    let ghost first = (pending@.len() + 1) as nat;
    let ghost ms = file_models(gs@);
    proof {
        crate::file_document::lemma_file_models_len(gs@);
        assert(ms.take(0) =~= Seq::<FileBoxModel>::empty());
        reveal(Seq::filter);
        assert(before + ms.take(0).filter(group_filter()) =~= before);
    }
    let mut i: usize = 0;
    while i < gs.len()
        invariant
            i <= gs.len(),
            ms == file_models(gs@),
            ms.len() == gs@.len(),
            first == before.len() + 1,
            out@ == start + grand_rows(ms.take(i as int), first),
            refs_view(pending@) == before + ms.take(i as int).filter(group_filter()),
        decreases gs.len() - i,
    {
        let ghost t = ms.take(i as int);
        let ghost o = out@;
        let ghost pv = pending@;
        proof {
            crate::file_document::lemma_file_models_take(gs@, i + 1);
            assert(ms.take(i + 1).drop_last() =~= t);
            assert(ms.take(i + 1).last() == ms[i as int]);
            crate::file_document::lemma_file_models_item(gs@, i as int);
            t.lemma_filter_push(ms[i as int], group_filter());
            assert(t.push(ms[i as int]) =~= ms.take(i + 1));
        }
        push_str(out, "    ");
        if gs[i].children.len() > 0 {
            pending.push(&gs[i]);
            proof {
                assert(pending@ =~= pv.push(pending@.last()));
                lemma_refs_view_push(pv, pending@.last());
                assert(*pending@.last() == gs@[i as int]);
            }
            push_char(out, '@');
            push_decimal(out, pending.len() as u64);
        } else {
            push_line(out, &gs[i]);
        }
        push_char(out, '\n');
        proof {
            reveal_strlit("    ");
            let g = ms[i as int];
            assert(refs_view(pending@).len() == pending@.len());
            assert(out@ =~= o + grand_row(g, first + t.filter(group_filter()).len()));
            assert(out@ =~= start + grand_rows(ms.take(i + 1), first));
            if is_group(g) {
                assert(refs_view(pending@) =~= before + ms.take(i + 1).filter(group_filter()));
            } else {
                assert(refs_view(pending@) =~= before + ms.take(i + 1).filter(group_filter()));
            }
        }
        i = i + 1;
    }
    proof {
        assert(ms.take(i as int) =~= ms);
    }
}

fn write_children<'a>(out: &mut String, cs: &'a Vec<FileBox>, pending: &mut Vec<&'a FileBox>)
    ensures
        final(out)@ == old(out)@ + children_rows(file_models(cs@), (old(pending)@.len() + 1) as nat),
        refs_view(final(pending)@) == refs_view(old(pending)@) + refs_of(file_models(cs@)),
{
    let ghost start = out@;
    let ghost before = refs_view(pending@);
    let ghost first = (pending@.len() + 1) as nat;
    let ghost ms = file_models(cs@);
    proof {
        crate::file_document::lemma_file_models_len(cs@);
        assert(ms.take(0) =~= Seq::<FileBoxModel>::empty());
        assert(before + refs_of(ms.take(0)) =~= before);
    }
    let mut i: usize = 0;
    while i < cs.len()
        invariant
            i <= cs.len(),
            ms == file_models(cs@),
            ms.len() == cs@.len(),
            first == before.len() + 1,
            out@ == start + children_rows(ms.take(i as int), first),
            refs_view(pending@) == before + refs_of(ms.take(i as int)),
        decreases cs.len() - i,
    {
        let ghost t = ms.take(i as int);
        let ghost o = out@;
        let ghost pv = refs_view(pending@);
        proof {
            assert(ms.take(i + 1).drop_last() =~= t);
            crate::file_document::lemma_file_models_item(cs@, i as int);
            assert(ms.take(i + 1).last() == ms[i as int]);
            assert(pending@.len() == pv.len());
        }
        push_str(out, INDENT);
        push_line(out, &cs[i]);
        push_char(out, '\n');
        write_grand(out, &cs[i].children, pending);
        proof {
            let c = ms[i as int];
            assert(c.children == file_models(cs@[i as int].children@));
            assert(out@ =~= o + child_text(c, first + refs_of(t).len()));
            assert(out@ =~= start + children_rows(ms.take(i + 1), first));
            assert(refs_view(pending@) =~= before + refs_of(ms.take(i + 1)));
        }
        i = i + 1;
    }
    proof {
        assert(ms.take(i as int) =~= ms);
    }
}

fn write_block<'a>(out: &mut String, b: &'a FileBox, header: &str, pending: &mut Vec<&'a FileBox>)
    ensures
        final(out)@ == old(out)@ + block_spec(file_model(*b), header@, (old(pending)@.len() + 1) as nat),
        refs_view(final(pending)@) == refs_view(old(pending)@) + refs_of(file_model(*b).children),
{
    let ghost o = out@;
    push_str(out, header);
    push_line(out, b);
    push_char(out, '\n');
    write_children(out, &b.children, pending);
    proof {
        assert(out@ =~= o + block_spec(file_model(*b), header@, (old(pending)@.len() + 1) as nat));
    }
}

proof fn lemma_join_push(blocks: Seq<Seq<char>>, x: Seq<char>)
    ensures
        join_spec(blocks.push(x)) == if blocks.len() == 0 {
            x
        } else {
            join_spec(blocks) + seq!['\n'] + x
        },
{
    assert(blocks.push(x).drop_last() =~= blocks);
    if blocks.len() == 0 {
        assert(blocks.push(x)[0] == x);
    }
}

/// The text of a diagram in the first format: each top-level box's block,
/// then each group's, a blank line between two blocks.
pub fn write(doc: &FileDoc) -> (r: String)
    ensures
        r@ == write_spec(file_models(doc.boxes@)),
{
    let ghost ms = file_models(doc.boxes@);
    let mut pending: Vec<&FileBox> = Vec::new();
    let mut out = String::new();
    let ghost mut blocks: Seq<Seq<char>> = Seq::empty();
    proof {
        crate::file_document::lemma_file_models_len(doc.boxes@);
        assert(ms.take(0) =~= Seq::<FileBoxModel>::empty());
        assert(refs_view(pending@) =~= Seq::<FileBoxModel>::empty());
    }
    let mut i: usize = 0;
    while i < doc.boxes.len()
        invariant
            i <= doc.boxes.len(),
            ms == file_models(doc.boxes@),
            ms.len() == doc.boxes@.len(),
            blocks == top_blocks(ms.take(i as int)),
            blocks.len() == i,
            out@ == join_spec(blocks),
            refs_view(pending@) == forest_refs(ms.take(i as int)),
        decreases doc.boxes.len() - i,
    {
        let ghost t = ms.take(i as int);
        proof {
            assert(ms.take(i + 1).drop_last() =~= t);
            crate::file_document::lemma_file_models_item(doc.boxes@, i as int);
            assert(ms.take(i + 1).last() == ms[i as int]);
            assert(refs_view(pending@).len() == pending@.len());
        }
        let mut block = String::new();
        write_block(&mut block, &doc.boxes[i], "", &mut pending);
        if i > 0 {
            push_char(&mut out, '\n');
        }
        push_str(&mut out, block.as_str());
        proof {
            reveal_strlit("");
            lemma_join_push(blocks, block@);
            blocks = blocks.push(block@);
            assert(block@ =~= block_spec(ms[i as int], Seq::empty(), 1 + forest_refs(t).len()));
            assert(blocks =~= top_blocks(ms.take(i + 1)));
            assert(refs_view(pending@) =~= forest_refs(ms.take(i + 1)));
        }
        i = i + 1;
    }
    proof {
        assert(ms.take(i as int) =~= ms);
    }
    let ghost total = top_blocks(ms) + group_blocks(forest_refs(ms), 1, 1 + forest_refs(ms).len());
    let mut head: usize = 0;
    proof {
        assert(refs_view(pending@).skip(0) =~= refs_view(pending@));
    }
    while head < pending.len()
        invariant
            head <= pending@.len(),
            out@ == join_spec(blocks),
            pending@.len() > 0 ==> blocks.len() > 0,
            total == blocks + group_blocks(refs_view(pending@).skip(head as int), (head + 1) as nat, (pending@.len() + 1) as nat),
        decreases weight(refs_view(pending@).skip(head as int)),
    {
        let ghost rest = refs_view(pending@).skip(head as int);
        let ghost pv = refs_view(pending@);
        let g = pending[head];
        proof {
            assert(rest[0] == file_model(*g));
            lemma_queue_shrinks(rest);
        }
        let mut block = String::new();
        push_char(&mut block, '@');
        push_decimal(&mut block, (head + 1) as u64);
        push_char(&mut block, ' ');
        let ghost header = block@;
        let mut body = String::new();
        write_block(&mut body, g, "", &mut pending);
        push_str(&mut block, body.as_str());
        push_char(&mut out, '\n');
        push_str(&mut out, block.as_str());
        head = head + 1;
        proof {
            reveal_strlit("");
            let refs = refs_of(file_model(*g).children);
            lemma_join_push(blocks, block@);
            assert(header =~= seq!['@'] + decimal((head) as nat) + seq![' ']);
            assert(block@ =~= block_spec(file_model(*g), header, (pv.len() + 1) as nat));
            assert(refs_view(pending@).skip(head as int) =~= rest.drop_first() + refs);
            assert(blocks + seq![block@] + group_blocks(rest.drop_first() + refs, (head + 1) as nat, (pending@.len() + 1) as nat)
                =~= blocks + group_blocks(rest, head as nat, (pv.len() + 1) as nat));
            blocks = blocks.push(block@);
            assert(blocks =~= blocks.drop_last() + seq![block@]);
        }
    }
    proof {
        assert(refs_view(pending@).skip(head as int) =~= Seq::<FileBoxModel>::empty());
        assert(blocks + Seq::<Seq<char>>::empty() =~= blocks);
    }
    out
}

proof fn lemma_no_groups(g: FileBoxModel)
    requires
        !is_group(g),
    ensures
        seq![g].filter(group_filter()) == Seq::<FileBoxModel>::empty(),
{
    let f = seq![g].filter(group_filter());
    if f.len() > 0 {
        assert(f.contains(f[0]));
        seq![g].lemma_filter_contains_rev(group_filter(), f[0]);
    }
    assert(f =~= Seq::<FileBoxModel>::empty());
}

proof fn lemma_one_top_block(a: FileBoxModel)
    requires
        refs_of(a.children).len() == 0,
    ensures
        write_spec(seq![a]) == block_spec(a, Seq::empty(), 1),
{
    let e = Seq::<FileBoxModel>::empty();
    assert(seq![a].drop_last() =~= e);
    assert(seq![a].last() == a);
    assert(forest_refs(e) =~= e);
    assert(forest_refs(seq![a]) =~= e);
    assert(top_blocks(e) =~= Seq::<Seq<char>>::empty());
    assert(top_blocks(seq![a]) =~= seq![block_spec(a, Seq::empty(), 1)]);
    assert(group_blocks(e, 1, 1) =~= Seq::<Seq<char>>::empty());
    assert(top_blocks(seq![a]) + group_blocks(e, 1, 1) =~= seq![block_spec(a, Seq::empty(), 1)]);
}

/// A box with no boxes under it is written three levels down as the very
/// line it would get at the top level, indented: its quoted label, then its
/// colour, fill and rounding when they are not the defaults.
pub proof fn law_deep_leaf_keeps_its_line(g: FileBoxModel, n: nat)
    requires
        g.children.len() == 0,
    ensures
        grand_row(g, n) == "    "@ + write_spec(seq![g]),
        write_spec(seq![g]) == line_spec(g) + seq!['\n'],
{
    let e = Seq::<FileBoxModel>::empty();
    assert(g.children =~= e);
    assert(refs_of(e) =~= e);
    lemma_one_top_block(g);
    assert(children_rows(e, 1) =~= Seq::<char>::empty());
    assert(block_spec(g, Seq::empty(), 1) =~= line_spec(g) + seq!['\n']);
    assert(grand_row(g, n) =~= "    "@ + (line_spec(g) + seq!['\n']));
}

/// A chain of three boxes is written one line per box, each indented two
/// more spaces than the one above it, and each the same line text whatever
/// its depth.
pub proof fn law_three_levels_share_one_line_format(a: FileBoxModel, b: FileBoxModel, g: FileBoxModel)
    requires
        a.children == seq![b],
        b.children == seq![g],
        g.children.len() == 0,
    ensures
        write_spec(seq![a]) == line_spec(a) + seq!['\n'] + "  "@ + line_spec(b) + seq!['\n'] + "    "@
            + line_spec(g) + seq!['\n'],
{
    let e = Seq::<FileBoxModel>::empty();
    lemma_no_groups(g);
    assert(seq![b].drop_last() =~= e);
    assert(seq![b].last() == b);
    assert(refs_of(e) =~= e);
    assert(refs_of(seq![b]) =~= e);
    lemma_one_top_block(a);
    assert(seq![g].drop_last() =~= e);
    assert(seq![g].last() == g);
    assert(e.filter(group_filter()) =~= e);
    assert(grand_rows(e, 1) =~= Seq::<char>::empty());
    assert(grand_rows(seq![g], 1) =~= grand_row(g, 1));
    assert(children_rows(e, 1) =~= Seq::<char>::empty());
    assert(children_rows(seq![b], 1) =~= child_text(b, 1));
    reveal_strlit("  ");
    reveal_strlit("    ");
    assert(write_spec(seq![a]) =~= line_spec(a) + seq!['\n'] + "  "@ + line_spec(b) + seq!['\n'] + "    "@
        + line_spec(g) + seq!['\n']);
}

/// A box three levels down that has boxes of its own is written as a
/// numbered reference where it stands, and its own block follows after a
/// blank line: the reference, its line, and its children indented under it.
pub proof fn law_deep_group_becomes_a_block(a: FileBoxModel, b: FileBoxModel, g: FileBoxModel, h: FileBoxModel)
    requires
        a.children == seq![b],
        b.children == seq![g],
        g.children == seq![h],
        h.children.len() == 0,
    ensures
        write_spec(seq![a]) == line_spec(a) + seq!['\n'] + "  "@ + line_spec(b) + seq!['\n'] + "    @1\n"@
            + seq!['\n'] + "@1 "@ + line_spec(g) + seq!['\n'] + "  "@ + line_spec(h) + seq!['\n'],
{
    let e = Seq::<FileBoxModel>::empty();
    reveal_strlit("  ");
    reveal_strlit("    @1\n");
    reveal_strlit("@1 ");
    assert(decimal(1) =~= seq!['1']) by {
        reveal_with_fuel(decimal, 2);
    }
    assert(is_group(g));
    assert(refs_of(e) =~= e);
    assert(e.filter(group_filter()) =~= e);
    lemma_no_groups(h);
    assert(seq![h].drop_last() =~= e);
    assert(seq![h].last() == h);
    assert(refs_of(seq![h]) =~= e);
    // the groups the chain refers to: just `g`
    let gs = seq![g].filter(group_filter());
    assert(gs =~= seq![g]) by {
        reveal_with_fuel(Seq::filter, 2);
    }
    assert(seq![b].drop_last() =~= e);
    assert(seq![b].last() == b);
    assert(refs_of(seq![b]) =~= seq![g]);
    assert(seq![a].drop_last() =~= e);
    assert(seq![a].last() == a);
    assert(forest_refs(e) =~= e);
    assert(forest_refs(seq![a]) =~= seq![g]);
    let blk_a = block_spec(a, Seq::empty(), 1);
    assert(top_blocks(e) =~= Seq::<Seq<char>>::empty());
    assert(top_blocks(seq![a]) =~= seq![blk_a]);
    assert(seq![g].drop_first() + refs_of(seq![h]) =~= e);
    assert(group_blocks(e, 2, 2) =~= Seq::<Seq<char>>::empty());
    let blk_g = block_spec(g, seq!['@'] + decimal(1) + seq![' '], 2);
    assert(group_blocks(seq![g], 1, 2) =~= seq![blk_g]);
    assert(seq![g].drop_last() =~= e);
    assert(seq![g].last() == g);
    assert(grand_rows(e, 1) =~= Seq::<char>::empty());
    assert(grand_rows(seq![g], 1) =~= grand_row(g, 1));
    assert(grand_rows(e, 2) =~= Seq::<char>::empty());
    assert(children_rows(e, 1) =~= Seq::<char>::empty());
    assert(children_rows(e, 2) =~= Seq::<char>::empty());
    assert(children_rows(seq![b], 1) =~= child_text(b, 1));
    assert(children_rows(seq![h], 2) =~= child_text(h, 2));
    let blocks = seq![blk_a] + seq![blk_g];
    assert(blocks.drop_last() =~= seq![blk_a]);
    assert(blocks.last() == blk_g);
    assert(seq![blk_a][0] == blk_a);
    assert(join_spec(seq![blk_a]) == blk_a);
    assert(join_spec(blocks) == blk_a + seq!['\n'] + blk_g);
    assert(top_blocks(seq![a]) + group_blocks(forest_refs(seq![a]), 1, 1 + forest_refs(seq![a]).len()) =~= blocks);
    reveal_strlit("    ");
    assert(grand_row(g, 1) =~= "    @1\n"@);
    assert(blk_a =~= line_spec(a) + seq!['\n'] + "  "@ + line_spec(b) + seq!['\n'] + "    @1\n"@);
    assert(blk_g =~= "@1 "@ + line_spec(g) + seq!['\n'] + "  "@ + line_spec(h) + seq!['\n']);
    assert(write_spec(seq![a]) =~= line_spec(a) + seq!['\n'] + "  "@ + line_spec(b) + seq!['\n']
        + "    @1\n"@ + seq!['\n'] + "@1 "@ + line_spec(g) + seq!['\n'] + "  "@ + line_spec(h) + seq!['\n']);
}

} // verus!
