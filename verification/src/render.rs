//! Diagnostic renderer: a textual flowchart view of the graph, one line per
//! adjacency entry, with caller-supplied node and edge formatters.

use vstd::prelude::*;
use vstd::string::StringExecFns;

use crate::graph::{Edge, EdgeIndex, EdgePair, Graph, NodeIndex};

verus! {

/// The character of one decimal digit.
pub open spec fn digit_char(d: nat) -> char {
    if d == 0 {
        '0'
    } else if d == 1 {
        '1'
    } else if d == 2 {
        '2'
    } else if d == 3 {
        '3'
    } else if d == 4 {
        '4'
    } else if d == 5 {
        '5'
    } else if d == 6 {
        '6'
    } else if d == 7 {
        '7'
    } else if d == 8 {
        '8'
    } else {
        '9'
    }
}

/// The decimal notation of `n`, most significant digit first, without
/// leading zeroes (a single zero for `n == 0`).
pub open spec fn decimal_chars(n: nat) -> Seq<char>
    decreases n,
{
    if n < 10 {
        seq![digit_char(n)]
    } else {
        decimal_chars(n / 10).push(digit_char(n % 10))
    }
}

/// One rendered flowchart line: an arrow from the source label to the
/// destination label, annotated with the edge label.
pub open spec fn mermaid_line(l1: Seq<char>, le: Seq<char>, l2: Seq<char>) -> Seq<char> {
    "\n\t"@ + l1 + "-->|"@ + le + "|"@ + l2 + ";"@
}

/// The whole rendered text: a header followed by one line per labelled
/// adjacency entry, in order.
pub open spec fn mermaid_text(labels: Seq<(Seq<char>, Seq<char>, Seq<char>)>) -> Seq<char>
    decreases labels.len(),
{
    if labels.len() == 0 {
        "graph TD;"@
    } else {
        mermaid_text(labels.drop_last()) + mermaid_line(
            labels.last().0,
            labels.last().1,
            labels.last().2,
        )
    }
}

/// The decimal digit `d` as a string slice.
fn digit_str(d: u64) -> (s: &'static str)
    requires
        d < 10,
    ensures
        s@ == seq![digit_char(d as nat)],
{
    let s: &'static str = if d == 0 {
        "0"
    } else if d == 1 {
        "1"
    } else if d == 2 {
        "2"
    } else if d == 3 {
        "3"
    } else if d == 4 {
        "4"
    } else if d == 5 {
        "5"
    } else if d == 6 {
        "6"
    } else if d == 7 {
        "7"
    } else if d == 8 {
        "8"
    } else {
        "9"
    };
    proof {
        reveal_strlit("0");
        reveal_strlit("1");
        reveal_strlit("2");
        reveal_strlit("3");
        reveal_strlit("4");
        reveal_strlit("5");
        reveal_strlit("6");
        reveal_strlit("7");
        reveal_strlit("8");
        reveal_strlit("9");
        assert(s@ =~= seq![digit_char(d as nat)]);
    }
    s
}

/// Renders `n` in decimal notation.
pub fn decimal_string(n: u64) -> (s: String)
    ensures
        s@ == decimal_chars(n as nat),
    decreases n,
{
    if n < 10 {
        let s = digit_str(n).to_owned();
        proof {
            assert(s@ =~= decimal_chars(n as nat));
        }
        s
    } else {
        let mut s = decimal_string(n / 10);
        s.append(digit_str(n % 10));
        proof {
            assert(s@ =~= decimal_chars(n as nat));
        }
        s
    }
}

/// Concatenates the header and one line per label triple.
fn render_lines(labels: &Vec<(String, String, String)>) -> (out: String)
    ensures
        out@ == mermaid_text(
            labels@.map_values(|t: (String, String, String)| (t.0@, t.1@, t.2@)),
        ),
{
    let ghost f = |t: (String, String, String)| (t.0@, t.1@, t.2@);
    let mut out = "graph TD;".to_owned();
    let mut k: usize = 0;
    proof {
        assert(labels@.subrange(0, 0).map_values(f) =~= Seq::empty());
    }
    while k < labels.len()
        invariant
            k <= labels@.len(),
            f == (|t: (String, String, String)| (t.0@, t.1@, t.2@)),
            out@ == mermaid_text(labels@.subrange(0, k as int).map_values(f)),
        decreases labels@.len() - k,
    {
        let ghost prefix = labels@.subrange(0, k as int).map_values(f);
        out.append("\n\t");
        out.append(labels[k].0.as_str());
        out.append("-->|");
        out.append(labels[k].1.as_str());
        out.append("|");
        out.append(labels[k].2.as_str());
        out.append(";");
        k += 1;
        proof {
            let next = labels@.subrange(0, k as int).map_values(f);
            assert(next.drop_last() =~= prefix);
            assert(next.last() == f(labels@[k - 1]));
            assert(out@ =~= mermaid_text(next));
        }
    }
    proof {
        assert(labels@.subrange(0, labels@.len() as int) =~= labels@);
    }
    out
}

impl<T, E: Edge> Graph<T, E> {
    /// The adjacency entries of node `i`, each with its source.
    pub open spec fn row_entries(&self, i: int) -> Seq<(NodeIndex, EdgeIndex, NodeIndex)> {
        self.adj()[i].map_values(|p: EdgePair| (NodeIndex(i as usize), p.0, p.1))
    }

    /// The adjacency entries of the nodes `0 .. i`, row by row.
    pub open spec fn entries_up_to(&self, i: int) -> Seq<(NodeIndex, EdgeIndex, NodeIndex)>
        decreases i,
    {
        if i <= 0 {
            Seq::empty()
        } else {
            self.entries_up_to(i - 1) + self.row_entries(i - 1)
        }
    }

    /// Every adjacency entry of the graph with its source node, in row
    /// order, rows in identifier order.
    pub open spec fn entry_seq(&self) -> Seq<(NodeIndex, EdgeIndex, NodeIndex)> {
        self.entries_up_to(self.adj().len() as int)
    }

    /// Lists every adjacency entry with its source node.
    pub fn edge_list(&self) -> (r: Vec<(NodeIndex, EdgeIndex, NodeIndex)>)
        requires
            self.wf(),
        ensures
            r@ == self.entry_seq(),
    {
        let n = self.node_count();
        let mut out: Vec<(NodeIndex, EdgeIndex, NodeIndex)> = Vec::new();
        let mut i: usize = 0;
        while i < n
            invariant
                self.wf(),
                n == self.nodes_seq().len(),
                i <= n,
                out@ == self.entries_up_to(i as int),
            decreases n - i,
        {
            let src = NodeIndex(i);
            let conns = self.get_connections(src);
            let clen = conns.len();
            let mut j: usize = 0;
            while j < clen
                invariant
                    self.wf(),
                    n == self.nodes_seq().len(),
                    i < n,
                    src == NodeIndex(i as usize),
                    conns@ == self.spec_connections(src),
                    clen == conns@.len(),
                    j <= clen,
                    out@ == self.entries_up_to(i as int) + self.row_entries(i as int).subrange(
                        0,
                        j as int,
                    ),
                decreases clen - j,
            {
                let (e, dst) = conns[j];
                out.push((src, e, dst));
                j += 1;
                proof {
                    assert(self.row_entries(i as int)[j - 1] == (src, e, dst));
                    assert(out@ =~= self.entries_up_to(i as int) + self.row_entries(
                        i as int,
                    ).subrange(0, j as int));
                }
            }
            i += 1;
            proof {
                assert(self.row_entries(i - 1).subrange(
                    0,
                    self.row_entries(i - 1).len() as int,
                ) =~= self.row_entries(i - 1));
            }
        }
        out
    }

    /// Emits one line for every adjacency entry, describing source node,
    /// edge and destination node with the caller-supplied formatters; the
    /// graph itself is left untouched. The output is the header followed,
    /// for each entry in `entry_seq()` order, by one line built from labels
    /// the formatters returned for that entry's endpoints and edge.
    pub fn to_mermaid_format(
        &self,
        format_node: impl Fn(&T, NodeIndex) -> String,
        format_edge: impl Fn(&E) -> String,
    ) -> (out: String)
        requires
            self.wf(),
            forall|t: &T, i: NodeIndex| #[trigger] call_requires(format_node, (t, i)),
            forall|e: &E| #[trigger] call_requires(format_edge, (e,)),
        ensures
            exists|labels: Seq<(Seq<char>, Seq<char>, Seq<char>)>|
                {
                    &&& labels.len() == self.entry_seq().len()
                    &&& (forall|k: int|
                        0 <= k < labels.len() ==> self.entry_labelled(
                            format_node,
                            format_edge,
                            self.entry_seq()[k],
                            #[trigger] labels[k],
                        ))
                    &&& out@ == #[trigger] mermaid_text(labels)
                },
    {
        let entries = self.edge_list();
        let elen = entries.len();
        let mut labs: Vec<(String, String, String)> = Vec::new();
        let ghost f = |t: (String, String, String)| (t.0@, t.1@, t.2@);
        let mut k: usize = 0;
        while k < elen
            invariant
                self.wf(),
                forall|t: &T, i: NodeIndex| #[trigger] call_requires(format_node, (t, i)),
                forall|e: &E| #[trigger] call_requires(format_edge, (e,)),
                entries@ == self.entry_seq(),
                elen == entries@.len(),
                k <= elen,
                labs@.len() == k,
                f == (|t: (String, String, String)| (t.0@, t.1@, t.2@)),
                forall|kk: int|
                    0 <= kk < k as int ==> self.entry_labelled(
                        format_node,
                        format_edge,
                        self.entry_seq()[kk],
                        #[trigger] labs@.map_values(f)[kk],
                    ),
            decreases elen - k,
        {
            let (src, eidx, dst) = entries[k];
            proof {
                lemma_entry_seq_wf(self);
                assert(self.entry_seq()[k as int] == (src, eidx, dst));
            }
            let src_ref = self.get_node(src).unwrap();
            let edge_ref = self.get_edge(eidx).unwrap();
            let dst_ref = self.get_node(dst).unwrap();
            let ls = format_node(src_ref, src);
            let es = format_edge(edge_ref);
            let ds = format_node(dst_ref, dst);
            let ghost old_labs = labs@;
            labs.push((ls, es, ds));
            k += 1;
            proof {
                assert(labs@.drop_last() =~= old_labs);
                assert(*src_ref == self.nodes_seq()[src.0 as int]);
                assert(*edge_ref == self.edges_seq()[eidx.0 as int]);
                assert(*dst_ref == self.nodes_seq()[dst.0 as int]);
                assert(self.entry_labelled(
                    format_node,
                    format_edge,
                    self.entry_seq()[k - 1],
                    (ls@, es@, ds@),
                ));
                assert(labs@.map_values(f)[k - 1] == (ls@, es@, ds@));
                assert forall|kk: int| 0 <= kk < k as int implies self.entry_labelled(
                    format_node,
                    format_edge,
                    self.entry_seq()[kk],
                    #[trigger] labs@.map_values(f)[kk],
                ) by {
                    if kk < k - 1 {
                        assert(labs@.map_values(f)[kk] == old_labs.map_values(f)[kk]);
                    }
                }
            }
        }
        let out = render_lines(&labs);
        proof {
            let labels = labs@.map_values(f);
            assert(labels.len() == self.entry_seq().len());
            assert(out@ == mermaid_text(labels));
        }
        out
    }

    /// The labels are possible formatter outputs for this entry.
    pub open spec fn entry_labelled(
        &self,
        format_node: impl Fn(&T, NodeIndex) -> String,
        format_edge: impl Fn(&E) -> String,
        entry: (NodeIndex, EdgeIndex, NodeIndex),
        labels: (Seq<char>, Seq<char>, Seq<char>),
    ) -> bool {
        exists|ls: String, es: String, ds: String|
            {
                &&& #[trigger] call_ensures(
                    format_node,
                    (&self.nodes_seq()[entry.0.0 as int], entry.0),
                    ls,
                )
                &&& #[trigger] call_ensures(
                    format_edge,
                    (&self.edges_seq()[entry.1.0 as int],),
                    es,
                )
                &&& #[trigger] call_ensures(
                    format_node,
                    (&self.nodes_seq()[entry.2.0 as int], entry.2),
                    ds,
                )
                &&& labels == (ls@, es@, ds@)
            }
    }

    /// Renders with the default formatters: a node is labelled by its
    /// identifier and an edge by its cost, both in decimal notation.
    pub fn to_mermaid(&self) -> (out: String)
        requires
            self.wf(),
        ensures
            out@ == mermaid_text(
                self.entry_seq().map_values(
                    |t: (NodeIndex, EdgeIndex, NodeIndex)|
                        (
                            decimal_chars(t.0.0 as nat),
                            decimal_chars(self.edges_seq()[t.1.0 as int].spec_cost() as nat),
                            decimal_chars(t.2.0 as nat),
                        ),
                ),
            ),
    {
        let fnode = |payload: &T, index: NodeIndex| -> (s: String)
            ensures
                s@ == decimal_chars(index.0 as nat),
            {
                decimal_string(index.0 as u64)
            };
        let fedge = |edge: &E| -> (s: String)
            ensures
                s@ == decimal_chars(edge.spec_cost() as nat),
            {
                decimal_string(edge.cost() as u64)
            };
        let out = self.to_mermaid_format(fnode, fedge);
        proof {
            let expected = self.entry_seq().map_values(
                |t: (NodeIndex, EdgeIndex, NodeIndex)|
                    (
                        decimal_chars(t.0.0 as nat),
                        decimal_chars(self.edges_seq()[t.1.0 as int].spec_cost() as nat),
                        decimal_chars(t.2.0 as nat),
                    ),
            );
            let labels = choose|labels: Seq<(Seq<char>, Seq<char>, Seq<char>)>|
                {
                    &&& labels.len() == self.entry_seq().len()
                    &&& (forall|k: int|
                        0 <= k < labels.len() ==> self.entry_labelled(
                            fnode,
                            fedge,
                            self.entry_seq()[k],
                            #[trigger] labels[k],
                        ))
                    &&& out@ == #[trigger] mermaid_text(labels)
                };
            assert forall|k: int| 0 <= k < labels.len() implies labels[k] == expected[k] by {
                assert(self.entry_labelled(fnode, fedge, self.entry_seq()[k], labels[k]));
            }
            assert(labels =~~= expected);
        }
        out
    }
}

/// Every entry listed by `entry_seq` references a source, an edge and a
/// destination that exist in their stores.
proof fn lemma_entries_wf<T, E: Edge>(g: &Graph<T, E>, i: int)
    requires
        g.wf(),
        0 <= i <= g.adj().len(),
    ensures
        forall|k: int|
            0 <= k < g.entries_up_to(i).len() ==> {
                let t = #[trigger] g.entries_up_to(i)[k];
                &&& t.0.0 < g.nodes_seq().len()
                &&& t.1.0 < g.edges_seq().len()
                &&& t.2.0 < g.nodes_seq().len()
            },
    decreases i,
{
    if i > 0 {
        lemma_entries_wf(g, i - 1);
        assert forall|k: int| 0 <= k < g.entries_up_to(i).len() implies {
            let t = #[trigger] g.entries_up_to(i)[k];
            &&& t.0.0 < g.nodes_seq().len()
            &&& t.1.0 < g.edges_seq().len()
            &&& t.2.0 < g.nodes_seq().len()
        } by {
            let prev = g.entries_up_to(i - 1);
            if k >= prev.len() {
                let j = k - prev.len();
                assert(g.entries_up_to(i)[k] == g.row_entries(i - 1)[j]);
                assert(g.row_entries(i - 1)[j] == (
                    NodeIndex((i - 1) as usize),
                    g.adj()[i - 1][j].0,
                    g.adj()[i - 1][j].1,
                ));
            }
        }
    }
}

/// `lemma_entries_wf` for the whole entry list.
proof fn lemma_entry_seq_wf<T, E: Edge>(g: &Graph<T, E>)
    requires
        g.wf(),
    ensures
        forall|k: int|
            0 <= k < g.entry_seq().len() ==> {
                let t = #[trigger] g.entry_seq()[k];
                &&& t.0.0 < g.nodes_seq().len()
                &&& t.1.0 < g.edges_seq().len()
                &&& t.2.0 < g.nodes_seq().len()
            },
{
    lemma_entries_wf(g, g.adj().len() as int);
}

} // verus!
