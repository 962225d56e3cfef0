//! A flat outline view of a document: headings, paragraphs and list items,
//! with drawer blocks dropped and blank lines separating paragraphs.

use vstd::prelude::*;
use crate::text::{
    is_ws, is_digit, scan_len, lemma_scan_len, trim_s, trim, str_chars,
    slice_to_vec_chars, chars_string, push_all, split_lines, lines_of,
};
use crate::agenda::lemma_join_lines_push;

verus! {

/// One display node of the outline.
#[derive(Clone, PartialEq, Eq, Debug)]
pub enum SlateNode {
    Heading { depth: u32, text: String },
    Paragraph { text: String },
    ListItem { depth: u32, ordered: bool, text: String },
}

#[verifier::ext_equal]
pub enum SlateModel {
    Heading { depth: u32, text: Seq<char> },
    Paragraph { text: Seq<char> },
    ListItem { depth: u32, ordered: bool, text: Seq<char> },
}

impl View for SlateNode {
    type V = SlateModel;

    open spec fn view(&self) -> SlateModel {
        match self {
            SlateNode::Heading { depth, text } => SlateModel::Heading {
                depth: *depth,
                text: text@,
            },
            SlateNode::Paragraph { text } => SlateModel::Paragraph { text: text@ },
            SlateNode::ListItem { depth, ordered, text } => SlateModel::ListItem {
                depth: *depth,
                ordered: *ordered,
                text: text@,
            },
        }
    }
}

pub open spec fn nodes_view(s: Seq<SlateNode>) -> Seq<SlateModel> {
    s.map_values(|n: SlateNode| n@)
}

/// Words joined by single spaces.
pub open spec fn join_spaces(ls: Seq<Seq<char>>) -> Seq<char>
    decreases ls.len(),
{
    if ls.len() == 0 {
        Seq::empty()
    } else if ls.len() == 1 {
        ls[0]
    } else {
        ls[0] + seq![' '] + join_spaces(ls.drop_first())
    }
}

proof fn lemma_join_spaces_push(ls: Seq<Seq<char>>, l: Seq<char>)
    ensures
        join_spaces(ls.push(l)) =~= if ls.len() == 0 {
            l
        } else {
            join_spaces(ls) + seq![' '] + l
        },
    decreases ls.len(),
{
    if ls.len() == 0 {
        assert(ls.push(l)[0] == l);
    } else {
        assert(ls.push(l).drop_first() =~= ls.drop_first().push(l));
        lemma_join_spaces_push(ls.drop_first(), l);
        assert(ls.push(l)[0] == ls[0]);
    }
}

/// A list-item line: after the indent, a `- `, `+ ` or `* ` bullet, or a
/// digit prefix ended by `.` or `)`; the depth grows with every two
/// columns of indent.
pub open spec fn depth32(n: int) -> u32 {
    if n > u32::MAX {
        u32::MAX
    } else {
        n as u32
    }
}

pub open spec fn parse_list_item_s(line: Seq<char>) -> Option<SlateModel> {
    let indent = scan_len(line, |c: char| !is_ws(c));
    let t = line.skip(indent);
    if t.len() >= 2 && (t[0] == '-' || t[0] == '+' || t[0] == '*') && t[1] == ' ' {
        Some(
            SlateModel::ListItem {
                depth: depth32(indent / 2 + 1),
                ordered: false,
                text: trim_s(t.skip(2)),
            },
        )
    } else {
        let i = scan_len(t, |c: char| c == '.' || c == ')');
        if i < t.len() && (forall|j: int| 0 <= j < i ==> is_digit(t[j])) {
            Some(
                SlateModel::ListItem {
                    depth: depth32(indent / 2 + 1),
                    ordered: true,
                    text: trim_s(t.skip(i + 1)),
                },
            )
        } else {
            None
        }
    }
}

/// Reads one line as a list item.
pub fn parse_list_item(line: &str) -> (r: Option<SlateNode>)
    ensures
        (match r {
            Some(n) => parse_list_item_s(line@) == Some(n@),
            None => parse_list_item_s(line@) is None,
        }),
{
    let chars = str_chars(line);
    parse_list_item_chars(&chars)
}

/// As `parse_list_item`, from a character buffer.
pub fn parse_list_item_chars(line: &Vec<char>) -> (r: Option<SlateNode>)
    ensures
        (match r {
            Some(n) => parse_list_item_s(line@) == Some(n@),
            None => parse_list_item_s(line@) is None,
        }),
{
    let n = line.len();
    let mut indent: usize = 0;
    while indent < n && (line[indent] == ' ' || line[indent] == '\t' || line[indent] == '\r'
        || line[indent] == '\n')
        invariant
            0 <= indent <= n,
            n == line@.len(),
            forall|j: int| 0 <= j < indent ==> is_ws(line@[j]),
        decreases n - indent,
    {
        indent = indent + 1;
    }
    proof {
        lemma_scan_len(line@, |c: char| !is_ws(c), indent as int);
    }
    let t = slice_to_vec_chars(line, indent, n);
    proof {
        assert(t@ =~= line@.skip(indent as int));
    }
    let m = t.len();
    if m >= 2 && (t[0] == '-' || t[0] == '+' || t[0] == '*') && t[1] == ' ' {
        let rest = slice_to_vec_chars(&t, 2, m);
        proof {
            assert(rest@ =~= t@.skip(2));
        }
        let text = trim(&rest);
        let depth: u32 = depth_u32(indent / 2 + 1);
        return Some(
            SlateNode::ListItem { depth, ordered: false, text: chars_string(&text) },
        );
    }
    let mut i: usize = 0;
    while i < m && t[i] != '.' && t[i] != ')'
        invariant
            0 <= i <= m,
            m == t@.len(),
            forall|j: int| 0 <= j < i ==> t@[j] != '.' && t@[j] != ')',
        decreases m - i,
    {
        i = i + 1;
    }
    proof {
        lemma_scan_len(t@, |c: char| c == '.' || c == ')', i as int);
    }
    if i >= m {
        return None;
    }
    let mut all_dig: bool = true;
    let mut k: usize = 0;
    while k < i
        invariant
            0 <= k <= i <= m,
            m == t@.len(),
            all_dig == (forall|j: int| 0 <= j < k ==> is_digit(t@[j])),
        decreases i - k,
    {
        let c = t[k];
        if !('0' <= c && c <= '9') {
            all_dig = false;
        }
        k = k + 1;
    }
    if !all_dig {
        return None;
    }
    let rest = slice_to_vec_chars(&t, i + 1, m);
    proof {
        assert(rest@ =~= t@.skip(i + 1));
    }
    let text = trim(&rest);
    let depth: u32 = depth_u32(indent / 2 + 1);
    Some(SlateNode::ListItem { depth, ordered: true, text: chars_string(&text) })
}

/// A heading-shaped line: a space with only stars before it.
pub open spec fn heading_split(line: Seq<char>) -> Option<(int, Seq<char>)> {
    let sp = scan_len(line, |c: char| c == ' ');
    if sp >= line.len() {
        None
    } else if forall|j: int| 0 <= j < sp ==> line[j] == '*' {
        Some((sp, trim_s(line.skip(sp + 1))))
    } else {
        None
    }
}

pub open spec fn flush_para(buf: Seq<Seq<char>>) -> Seq<SlateModel> {
    if buf.len() == 0 {
        Seq::empty()
    } else {
        seq![SlateModel::Paragraph { text: join_spaces(buf) }]
    }
}

/// One line of the outline scan: colon-wrapped lines toggle the drawer
/// flag, blank lines flush the paragraph, heading and list lines emit
/// their nodes, and the rest joins the open paragraph.
pub open spec fn slate_step(nodes: Seq<SlateModel>, buf: Seq<Seq<char>>, dr: bool, line: Seq<char>) -> (
    Seq<SlateModel>,
    Seq<Seq<char>>,
    bool,
) {
    let tr = trim_s(line);
    if tr.len() > 1 && tr[0] == ':' && tr.last() == ':' {
        (nodes, buf, !dr)
    } else if dr {
        (nodes, buf, dr)
    } else if tr.len() == 0 {
        (nodes + flush_para(buf), Seq::empty(), dr)
    } else {
        match heading_split(line) {
            Some((depth, text)) => (
                nodes + flush_para(buf) + seq![
                    SlateModel::Heading { depth: depth32(depth), text },
                ],
                Seq::empty(),
                dr,
            ),
            None => match parse_list_item_s(line) {
                Some(item) => (nodes + flush_para(buf) + seq![item], Seq::empty(), dr),
                None => (nodes, buf.push(tr), dr),
            },
        }
    }
}

pub open spec fn slate_fold(
    lines: Seq<Seq<char>>,
    nodes: Seq<SlateModel>,
    buf: Seq<Seq<char>>,
    dr: bool,
) -> Seq<SlateModel>
    decreases lines.len(),
{
    if lines.len() == 0 {
        nodes + flush_para(buf)
    } else {
        let step = slate_step(nodes, buf, dr, lines[0]);
        slate_fold(lines.drop_first(), step.0, step.1, step.2)
    }
}

/// The outline of a document; a document with no nodes becomes one
/// paragraph holding the whole text.
pub open spec fn document_to_slate_spec(text: Seq<char>) -> Seq<SlateModel> {
    let nodes = slate_fold(lines_of(text), Seq::empty(), Seq::empty(), false);
    if nodes.len() == 0 {
        seq![SlateModel::Paragraph { text }]
    } else {
        nodes
    }
}

/// Converts a document to its outline nodes.
pub fn document_to_slate(text: &str) -> (r: Vec<SlateNode>)
    ensures
        nodes_view(r@) == document_to_slate_spec(text@),
{
    let textv = str_chars(text);
    let lines = split_lines(&textv);
    let ghost linesv = lines@.map_values(|l: Vec<char>| l@);
    let mut nodes: Vec<SlateNode> = Vec::new();
    let mut buf: Vec<Vec<char>> = Vec::new();
    let mut dr: bool = false;
    let n = lines.len();
    let mut i: usize = 0;
    proof {
        assert(linesv.skip(0) =~= linesv);
        assert(nodes_view(nodes@) =~= Seq::<SlateModel>::empty());
        assert(buf@.map_values(|l: Vec<char>| l@) =~= Seq::<Seq<char>>::empty());
    }
    while i < n
        invariant
            0 <= i <= n,
            n == linesv.len(),
            linesv == lines@.map_values(|l: Vec<char>| l@),
            slate_fold(
                linesv.skip(i as int),
                nodes_view(nodes@),
                buf@.map_values(|l: Vec<char>| l@),
                dr,
            ) == slate_fold(linesv, Seq::empty(), Seq::empty(), false),
        decreases n - i,
    {
        let ghost old_nodes = nodes_view(nodes@);
        let ghost old_buf = buf@.map_values(|l: Vec<char>| l@);
        let ghost old_dr = dr;
        let line = &lines[i];
        proof {
            assert(linesv.skip(i as int)[0] == line@);
            assert(linesv.skip(i as int).drop_first() =~= linesv.skip(i + 1));
        }
        let tr = trim(line);
        if tr.len() > 1 && tr[0] == ':' && tr[tr.len() - 1] == ':' {
            dr = !dr;
        } else if dr {
        } else if tr.len() == 0 {
            flush_paragraph(&mut buf, &mut nodes);
        } else {
            let ln = line.len();
            let mut sp: usize = 0;
            while sp < ln && line[sp] != ' '
                invariant
                    0 <= sp <= ln,
                    ln == line@.len(),
                    forall|j: int| 0 <= j < sp ==> line@[j] != ' ',
                decreases ln - sp,
            {
                sp = sp + 1;
            }
            proof {
                lemma_scan_len(line@, |c: char| c == ' ', sp as int);
            }
            let mut stars_ok: bool = sp < ln;
            let mut k: usize = 0;
            while k < sp
                invariant
                    0 <= k <= sp <= ln,
                    ln == line@.len(),
                    stars_ok == ((sp < ln) && forall|j: int| 0 <= j < k ==> line@[j] == '*'),
                decreases sp - k,
            {
                if line[k] != '*' {
                    stars_ok = false;
                }
                k = k + 1;
            }
            if stars_ok {
                let after = slice_to_vec_chars(line, sp + 1, ln);
                proof {
                    assert(after@ =~= line@.skip(sp + 1));
                }
                let title = trim(&after);
                flush_paragraph(&mut buf, &mut nodes);
                let ghost flushed = nodes_view(nodes@);
                let node = SlateNode::Heading {
                    depth: depth_u32(sp),
                    text: chars_string(&title),
                };
                let ghost prev = nodes@;
                nodes.push(node);
                proof {
                    assert(nodes_view(nodes@) =~= nodes_view(prev) + seq![node@]);
                    assert(heading_split(line@) == Some((sp as int, trim_s(line@.skip(sp + 1)))));
                }
            } else {
                match parse_list_item_chars(line) {
                    Some(item) => {
                        flush_paragraph(&mut buf, &mut nodes);
                        let ghost prev = nodes@;
                        let ghost iv = item@;
                        nodes.push(item);
                        proof {
                            assert(nodes_view(nodes@) =~= nodes_view(prev) + seq![iv]);
                            if heading_split(line@) is Some {
                                assert(false);
                            }
                        }
                    },
                    None => {
                        let ghost prev_buf = buf@.map_values(|l: Vec<char>| l@);
                        buf.push(tr);
                        proof {
                            assert(buf@.map_values(|l: Vec<char>| l@) =~= prev_buf.push(
                                trim_s(line@),
                            ));
                            if heading_split(line@) is Some {
                                assert(false);
                            }
                        }
                    },
                }
            }
        }
        proof {
            let step = slate_step(old_nodes, old_buf, old_dr, line@);
            assert(nodes_view(nodes@) =~~= step.0);
            assert(buf@.map_values(|l: Vec<char>| l@) =~~= step.1);
            assert(dr == step.2);
            assert(slate_fold(linesv.skip(i as int), old_nodes, old_buf, old_dr) == slate_fold(
                linesv.skip(i + 1),
                nodes_view(nodes@),
                buf@.map_values(|l: Vec<char>| l@),
                dr,
            ));
        }
        i = i + 1;
    }
    proof {
        assert(linesv.skip(n as int) =~= Seq::<Seq<char>>::empty());
    }
    flush_paragraph(&mut buf, &mut nodes);
    if nodes.len() == 0 {
        let mut out: Vec<SlateNode> = Vec::new();
        let whole = slice_to_vec_chars(&textv, 0, textv.len());
        proof {
            assert(whole@ =~= text@);
        }
        let node = SlateNode::Paragraph { text: chars_string(&whole) };
        out.push(node);
        proof {
            assert(nodes_view(out@) =~= seq![node@]);
        }
        out
    } else {
        nodes
    }
}

fn depth_u32(sp: usize) -> (r: u32)
    ensures
        r == depth32(sp as int),
{
    if sp > 0xffff_ffff {
        0xffff_ffff
    } else {
        sp as u32
    }
}

/// Closes the open paragraph, if any, into `nodes`.
fn flush_paragraph(buf: &mut Vec<Vec<char>>, nodes: &mut Vec<SlateNode>)
    ensures
        nodes_view(final(nodes)@) =~= nodes_view(old(nodes)@) + flush_para(
            old(buf)@.map_values(|l: Vec<char>| l@),
        ),
        final(buf)@.map_values(|l: Vec<char>| l@) =~= Seq::<Seq<char>>::empty(),
{
    let ghost bufv = old(buf)@.map_values(|l: Vec<char>| l@);
    if buf.len() == 0 {
        proof {
            assert(nodes_view(nodes@) =~= nodes_view(nodes@) + flush_para(bufv));
            assert(buf@.map_values(|l: Vec<char>| l@) =~= Seq::<Seq<char>>::empty());
        }
        return ;
    }
    let mut textv: Vec<char> = Vec::new();
    let n = buf.len();
    let mut i: usize = 0;
    proof {
        assert(bufv.take(0) =~= Seq::<Seq<char>>::empty());
    }
    while i < n
        invariant
            0 <= i <= n,
            n == bufv.len(),
            bufv == buf@.map_values(|l: Vec<char>| l@),
            textv@ =~= join_spaces(bufv.take(i as int)),
        decreases n - i,
    {
        let line = &buf[i];
        proof {
            assert(bufv.take(i + 1) =~= bufv.take(i as int).push(line@));
            lemma_join_spaces_push(bufv.take(i as int), line@);
            assert(bufv.take(i as int).len() == i);
        }
        if i > 0 {
            textv.push(' ');
        }
        push_all(&mut textv, line);
        i = i + 1;
    }
    proof {
        assert(bufv.take(n as int) =~= bufv);
    }
    let node = SlateNode::Paragraph { text: chars_string(&textv) };
    let ghost prev = nodes@;
    nodes.push(node);
    buf.clear();
    proof {
        assert(nodes_view(nodes@) =~= nodes_view(prev) + seq![node@]);
        assert(buf@.map_values(|l: Vec<char>| l@) =~= Seq::<Seq<char>>::empty());
    }
}

} // verus!
