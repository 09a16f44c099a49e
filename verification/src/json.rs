use vstd::prelude::*;

use crate::common::{bytes_to_hex, hex_of};
use crate::event::{Event, EventModel};
use crate::graph::{Graph, GraphModel};

verus! {

/// The spec-level decimal digit for a value below ten.
pub open spec fn dec_digit(d: nat) -> char {
    if d == 0 {
        '0'
    } else if d == 1 {
        '1'
    } else if d == 2 {
        '2'
    } else if d == 3 {
        '3'
    } else if d == 4 {
        '4'
    } else if d == 5 {
        '5'
    } else if d == 6 {
        '6'
    } else if d == 7 {
        '7'
    } else if d == 8 {
        '8'
    } else {
        '9'
    }
}

/// The decimal rendering of a natural number, most significant digit
/// first, with no leading zeroes.
pub open spec fn dec_of(n: nat) -> Seq<char>
    decreases n,
{
    if n < 10 {
        seq![dec_digit(n)]
    } else {
        dec_of(n / 10) + seq![dec_digit(n % 10)]
    }
}

/// Appends the single decimal digit for `d` to `s`.
fn push_dec_digit(s: &mut String, d: u64)
    requires
        d < 10,
    ensures
        final(s)@ == old(s)@ + seq![dec_digit(d as nat)],
{
    if d == 0 {
        proof { reveal_strlit("0"); }
        s.append("0");
    } else if d == 1 {
        proof { reveal_strlit("1"); }
        s.append("1");
    } else if d == 2 {
        proof { reveal_strlit("2"); }
        s.append("2");
    } else if d == 3 {
        proof { reveal_strlit("3"); }
        s.append("3");
    } else if d == 4 {
        proof { reveal_strlit("4"); }
        s.append("4");
    } else if d == 5 {
        proof { reveal_strlit("5"); }
        s.append("5");
    } else if d == 6 {
        proof { reveal_strlit("6"); }
        s.append("6");
    } else if d == 7 {
        proof { reveal_strlit("7"); }
        s.append("7");
    } else if d == 8 {
        proof { reveal_strlit("8"); }
        s.append("8");
    } else {
        proof { reveal_strlit("9"); }
        s.append("9");
    }
}

/// The decimal rendering of `n`.
pub fn u64_to_dec(n: u64) -> (r: String)
    ensures
        r@ == dec_of(n as nat),
    decreases n,
{
    if n < 10 {
        let mut s = String::new();
        push_dec_digit(&mut s, n);
        proof {
            assert(Seq::<char>::empty() + seq![dec_digit(n as nat)] =~= seq![
                dec_digit(n as nat),
            ]);
        }
        s
    } else {
        let mut s = u64_to_dec(n / 10);
        push_dec_digit(&mut s, n % 10);
        s
    }
}

/// The JSON projection of one event.
pub open spec fn json_of_event(e: EventModel) -> Seq<char> {
    match e {
        EventModel::Initial { timestamp, peer } => "{\"kind\":\"initial\",\"timestamp\":"@ + dec_of(
            timestamp as nat,
        ) + ",\"peer\":"@ + dec_of(peer as nat) + "}"@,
        EventModel::Default { timestamp, transactions, self_parent, other_parent } =>
            "{\"kind\":\"default\",\"timestamp\":"@ + dec_of(timestamp as nat)
            + ",\"transactions\":\""@ + hex_of(transactions) + "\",\"self_parent\":\""@ + hex_of(
            self_parent,
        ) + "\",\"other_parent\":\""@ + hex_of(other_parent) + "\"}"@,
    }
}

/// The JSON members of the event map, over the first `k` entries:
/// hex hash keys, event objects as values, comma separated.
pub open spec fn json_of_entries(entries: Seq<(Seq<u8>, EventModel)>, k: int) -> Seq<char>
    decreases k,
{
    if k <= 0 || k > entries.len() {
        Seq::<char>::empty()
    } else {
        let item = "\""@ + hex_of(entries[k - 1].0) + "\":"@ + json_of_event(entries[k - 1].1);
        if k == 1 {
            item
        } else {
            json_of_entries(entries, k - 1) + ","@ + item
        }
    }
}

/// The JSON projection of a graph: the peer count and the event map,
/// events keyed by their hex hashes in storage order.
pub open spec fn json_of_graph(g: GraphModel) -> Seq<char> {
    "{\"total_peers\":"@ + dec_of(g.total_peers) + ",\"events\":{"@ + json_of_entries(
        g.entries,
        g.entries.len() as int,
    ) + "}}"@
}

/// The JSON projection of a peer: its id, the pending transactions in
/// hex, and its graph.
pub open spec fn json_of_peer(id: u64, pending: Seq<u8>, g: GraphModel) -> Seq<char> {
    "{\"id\":"@ + dec_of(id as nat) + ",\"transactions\":\""@ + hex_of(pending) + "\",\"graph\":"@
        + json_of_graph(g) + "}"@
}

impl Event {
    /// The stable JSON projection of the event.
    pub fn as_json(&self) -> (r: String)
        ensures
            r@ == json_of_event(self@),
    {
        match self {
            Event::Initial(ev) => {
                let mut s = String::new();
                s.append("{\"kind\":\"initial\",\"timestamp\":");
                let d = u64_to_dec(ev.timestamp);
                s.append(d.as_str());
                s.append(",\"peer\":");
                let p = u64_to_dec(ev.peer);
                s.append(p.as_str());
                s.append("}");
                proof {
                    assert(s@ =~= json_of_event(self@));
                }
                s
            },
            Event::Default(ev) => {
                let mut s = String::new();
                s.append("{\"kind\":\"default\",\"timestamp\":");
                let d = u64_to_dec(ev.timestamp);
                s.append(d.as_str());
                s.append(",\"transactions\":\"");
                let tx = bytes_to_hex(ev.transactions.as_slice());
                s.append(tx.as_str());
                s.append("\",\"self_parent\":\"");
                let sp = bytes_to_hex(ev.self_parent.as_slice());
                s.append(sp.as_str());
                s.append("\",\"other_parent\":\"");
                let op = bytes_to_hex(ev.other_parent.as_slice());
                s.append(op.as_str());
                s.append("\"}");
                proof {
                    assert(s@ =~= json_of_event(self@));
                }
                s
            },
        }
    }
}

impl Graph {
    /// The stable JSON projection of the graph.
    pub fn as_json(&self) -> (r: String)
        ensures
            r@ == json_of_graph(self@),
    {
        let ghost g = self@;
        let mut s = String::new();
        s.append("{\"total_peers\":");
        let tp = u64_to_dec(self.total_peers as u64);
        s.append(tp.as_str());
        s.append(",\"events\":{");
        let ghost header = s@;
        let n = self.events.len();
        let mut i: usize = 0;
        proof {
            assert(s@ =~= header + json_of_entries(g.entries, 0));
        }
        while i < n
            invariant
                0 <= i <= n,
                n == self.events@.len(),
                g == self@,
                header == "{\"total_peers\":"@ + dec_of(g.total_peers) + ",\"events\":{"@,
                s@ == header + json_of_entries(g.entries, i as int),
            decreases n - i,
        {
            if i > 0 {
                s.append(",");
            }
            let hx = bytes_to_hex(self.events[i].0.as_slice());
            s.append("\"");
            s.append(hx.as_str());
            s.append("\":");
            let ej = self.events[i].1.as_json();
            s.append(ej.as_str());
            proof {
                assert(g.entries[i as int].0 == self.events@[i as int].0@);
                assert(g.entries[i as int].1 == self.events@[i as int].1@);
                assert(s@ =~= header + json_of_entries(g.entries, i + 1));
            }
            i += 1;
        }
        s.append("}}");
        proof {
            assert(s@ =~= json_of_graph(g));
        }
        s
    }
}

} // verus!
